//! Classification of VM storage keys into report labels and contention
//! classes.

use vstd::prelude::*;

use crate::location::{KeyClass, Location, LocationId, LocationTable};
use crate::text::{chars_of, contains_chars, contains_run};

verus! {

/// The parts of a VM storage key that classification reads.
#[derive(Debug)]
pub enum StateKeyView {
    /// Published module bytecode: the hex literal of the account address that
    /// stores it, and the module name.
    Code { address: String, module: String },
    /// A resource or resource group: the hex literal of the account address
    /// that stores it, the bytes of the address that defines its struct type,
    /// and the struct's module and name.
    Resource { address: String, type_address: [u8; 32], module: String, name: String },
    /// An entry of a Move table, by the hex literal of the table handle.
    TableItem { handle: String },
    /// A raw key.
    Raw,
    /// A trading-native key.
    TradingNative,
}

/// A type defined at a reserved framework address (0x1, 0x3, 0x4, 0xa, ...):
/// every byte but the last is zero, and the last is at most 0x0f.
pub open spec fn framework_address(bytes: Seq<u8>) -> bool {
    &&& forall|i: int| 0 <= i < bytes.len() - 1 ==> bytes[i] == 0
    &&& bytes[bytes.len() - 1] <= 0x0f
}

/// A struct type that is an aggregator or delayed field, recognized by name.
pub open spec fn aggregator_type(module: Seq<char>, name: Seq<char>) -> bool {
    ||| contains_run(module, "aggregator"@)
    ||| contains_run(name, "Aggregator"@)
    ||| contains_run(name, "DelayedField"@)
}

/// The report label and contention class of a storage key.
pub open spec fn classification(key: StateKeyView) -> (Seq<char>, KeyClass) {
    match key {
        StateKeyView::Code { address, module } => (
            address@ + "::"@ + module@ + " (code)"@,
            KeyClass::Code,
        ),
        StateKeyView::Resource { address, type_address, module, name } => (
            address@ + "::"@ + module@ + "::"@ + name@,
            if aggregator_type(module@, name@) {
                KeyClass::Aggregator
            } else if framework_address(type_address@) {
                KeyClass::Framework
            } else {
                KeyClass::Resource
            },
        ),
        StateKeyView::TableItem { handle } => ("table["@ + handle@ + "]"@, KeyClass::TableItem),
        StateKeyView::Raw => ("raw"@, KeyClass::Unknown),
        StateKeyView::TradingNative => ("trading-native"@, KeyClass::Unknown),
    }
}

/// Whether a struct type defined at `address` is framework state. Every
/// transaction writes such state (gas payment, sequence numbers, fungible
/// stores), so it would dominate the ranking and mask the contract's own
/// contention.
pub fn is_framework(address: &[u8; 32]) -> (r: bool)
    ensures
        r == framework_address(address@),
{
    let mut i: usize = 0;
    while i < 31
        invariant
            address@.len() == 32,
            0 <= i <= 31,
            forall|q: int| 0 <= q < i ==> address@[q] == 0,
        decreases 31 - i,
    {
        if address[i] != 0 {
            return false;
        }
        i = i + 1;
    }
    address[31] <= 0x0f
}

/// Whether a struct type is an aggregator or delayed field. Their updates
/// commute, so Block-STM does not serialize on them.
pub fn is_aggregator(module: &str, name: &str) -> (r: bool)
    ensures
        r == aggregator_type(module@, name@),
{
    let m = chars_of(module);
    let n = chars_of(name);
    let aggregator = chars_of("aggregator");
    let upper = chars_of("Aggregator");
    let delayed = chars_of("DelayedField");
    contains_chars(&m, &aggregator) || contains_chars(&n, &upper) || contains_chars(&n, &delayed)
}

/// Derive a report label and contention class from a storage key. The label
/// names the account that stores the value; the class goes by the address
/// that defines its type.
pub fn classify(key: &StateKeyView) -> (r: (String, KeyClass))
    ensures
        (r.0@, r.1) == classification(*key),
{
    match key {
        StateKeyView::Code { address, module } => {
            let mut label = String::from_str(address.as_str());
            label.append("::");
            label.append(module.as_str());
            label.append(" (code)");
            (label, KeyClass::Code)
        },
        StateKeyView::Resource { address, type_address, module, name } => {
            let mut label = String::from_str(address.as_str());
            label.append("::");
            label.append(module.as_str());
            label.append("::");
            label.append(name.as_str());
            let class = if is_aggregator(module.as_str(), name.as_str()) {
                KeyClass::Aggregator
            } else if is_framework(type_address) {
                KeyClass::Framework
            } else {
                KeyClass::Resource
            };
            (label, class)
        },
        StateKeyView::TableItem { handle } => {
            let mut label = String::from_str("table[");
            label.append(handle.as_str());
            label.append("]");
            (label, KeyClass::TableItem)
        },
        StateKeyView::Raw => (String::from_str("raw"), KeyClass::Unknown),
        StateKeyView::TradingNative => (String::from_str("trading-native"), KeyClass::Unknown),
    }
}

/// Assigns consecutive [`LocationId`]s to storage keys on their first
/// sighting and records each one's label and class in a [`LocationTable`].
/// Recognizing a key seen before is up to the caller, which owns the keys.
#[derive(Debug)]
pub struct LocationInterner {
    table: LocationTable,
    next: u32,
}

impl LocationInterner {
    /// The id the next new key will get.
    pub closed spec fn next_id(&self) -> u32 {
        self.next
    }

    /// The registry built so far.
    pub closed spec fn registry(&self) -> Map<LocationId, Location> {
        self.table@
    }

    /// The registry holds exactly the ids handed out so far: those below
    /// [`next_id`](Self::next_id), one entry each.
    pub open spec fn wf(&self) -> bool {
        &&& self.registry().dom().finite()
        &&& self.registry().len() == self.next_id()
        &&& forall|id: LocationId| #[trigger] self.registry().contains_key(id) <==> id < self.next_id()
    }

    /// An interner that has seen no key.
    pub fn new() -> (r: LocationInterner)
        ensures
            r.wf(),
            r.next_id() == 0,
            r.registry() == Map::<LocationId, Location>::empty(),
    {
        LocationInterner { table: LocationTable::new(), next: 0 }
    }

    /// Assign the next id to a newly seen key, classify it and record it. The
    /// new id is fresh and equals the number of keys registered before.
    pub fn register(&mut self, key: &StateKeyView) -> (id: LocationId)
        requires
            old(self).wf(),
            old(self).next_id() < u32::MAX,
        ensures
            final(self).wf(),
            id == old(self).next_id(),
            id == old(self).registry().len(),
            !old(self).registry().contains_key(id),
            final(self).next_id() == old(self).next_id() + 1,
            final(self).registry().dom() == old(self).registry().dom().insert(id),
            final(self).registry()[id].id == id,
            (final(self).registry()[id].label@, final(self).registry()[id].class) == classification(
                *key,
            ),
            forall|other: LocationId|
                other != id && #[trigger] old(self).registry().contains_key(other)
                    ==> final(self).registry()[other] == old(self).registry()[other],
    {
        let id = self.next;
        self.next = self.next + 1;
        let (label, class) = classify(key);
        self.table.insert(Location { id, label, class });
        proof {
            assert forall|x: LocationId| #[trigger] self.registry().contains_key(x) <==> x
                < self.next_id() by {
                if x < self.next_id() && x != id {
                    assert(old(self).registry().contains_key(x));
                }
            }
        }
        id
    }

    /// The registry built so far.
    pub fn table(&self) -> (r: &LocationTable)
        ensures
            r@ == self.registry(),
    {
        &self.table
    }

    /// The registry built so far, taking the interner apart.
    pub fn into_table(self) -> (r: LocationTable)
        ensures
            r@ == self.registry(),
    {
        self.table
    }
}


/// Storage keys are classified by what they hold. Code is `Code`. A resource
/// whose module name contains `aggregator`, or whose struct name contains
/// `Aggregator` or `DelayedField`, is `Aggregator`, even when the framework
/// defines it; any other resource whose type is defined at an address whose
/// 32 bytes are zero but for a last byte of at most 0x0f is `Framework`; every
/// other resource is `Resource`. A table entry is `TableItem`, and raw and
/// trading-native keys are `Unknown`. Only aggregators, code and framework
/// state escape conflict detection.
pub proof fn law_classification(key: StateKeyView)
    ensures
        key is Code ==> classification(key).1 == KeyClass::Code,
        key matches StateKeyView::Resource { type_address, module, name, .. } ==> {
            let agg = contains_run(module@, "aggregator"@) || contains_run(name@, "Aggregator"@)
                || contains_run(name@, "DelayedField"@);
            let low = (forall|i: int| 0 <= i < 31 ==> #[trigger] type_address@[i] == 0)
                && type_address@[31] <= 0x0f;
            &&& agg ==> classification(key).1 == KeyClass::Aggregator
            &&& !agg && low ==> classification(key).1 == KeyClass::Framework
            &&& !agg && !low ==> classification(key).1 == KeyClass::Resource
        },
        key is TableItem ==> classification(key).1 == KeyClass::TableItem,
        key is Raw || key is TradingNative ==> classification(key).1 == KeyClass::Unknown,
        classification(key).1.conflicts() <==> !(classification(key).1 == KeyClass::Aggregator
            || classification(key).1 == KeyClass::Code || classification(key).1
            == KeyClass::Framework),
{
    if let StateKeyView::Resource { type_address, .. } = key {
        assert(type_address@.len() == 32);
    }
}

} // verus!
