//! The captured storage footprint of transactions and workloads.

use std::collections::BTreeSet;
use vstd::prelude::*;

use crate::location::{LocationId, LocationTable};

verus! {

/// The mathematical content of a [`TxnAccess`].
pub struct TxnView {
    pub reads: Set<LocationId>,
    pub writes: Set<LocationId>,
    pub gas_used: u64,
    pub success: bool,
}

/// The captured storage footprint of a single transaction.
#[derive(Debug, Clone, PartialEq, Eq, Default)]
pub struct TxnAccess {
    pub reads: BTreeSet<LocationId>,
    pub writes: BTreeSet<LocationId>,
    /// Gas consumed, used as a proxy for execution cost when scheduling.
    pub gas_used: u64,
    pub success: bool,
}

impl View for TxnAccess {
    type V = TxnView;

    open spec fn view(&self) -> TxnView {
        TxnView {
            reads: self.reads@,
            writes: self.writes@,
            gas_used: self.gas_used,
            success: self.success,
        }
    }
}

/// The views of a sequence of transactions.
pub open spec fn txn_views(txns: Seq<TxnAccess>) -> Seq<TxnView> {
    txns.map_values(|t: TxnAccess| t@)
}

/// Execution cost of a transaction that consumed `gas`: the gas, floored at 1.
pub open spec fn cost_of(gas: u64) -> int {
    if gas == 0 { 1 } else { gas as int }
}

impl TxnAccess {
    /// Execution cost, floored at 1 so every transaction advances the schedule.
    pub fn cost(&self) -> (r: u64)
        ensures
            r == cost_of(self.gas_used),
            r >= 1,
    {
        if self.gas_used == 0 { 1 } else { self.gas_used }
    }
}

/// A captured workload: transactions in block order plus the location registry
/// needed to interpret their access sets.
#[derive(Debug, Clone)]
pub struct Workload {
    pub txns: Vec<TxnAccess>,
    pub locations: LocationTable,
}

impl Default for Workload {
    fn default() -> (r: Self)
        ensures
            r.txns@.len() == 0,
            r.locations@ == Map::<LocationId, crate::location::Location>::empty(),
    {
        Workload { txns: Vec::new(), locations: LocationTable::new() }
    }
}

} // verus!
