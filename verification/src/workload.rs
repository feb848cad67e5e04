//! Workload specification and the deterministic planner that expands it into
//! a sequence of entry-function calls: which call template, which sender,
//! which sequence number and which argument values each transaction gets.
//! Turning a plan into signed transactions happens at the VM boundary.

use vstd::prelude::*;
use vstd::wrapping::u64_specs;

use crate::text::{chars_of, push_char};

verus! {

/// A workload description.
#[derive(Debug)]
pub struct WorkloadSpec {
    /// Number of simulated users.
    pub accounts: usize,
    /// Total measured transactions to generate.
    pub txns: usize,
    /// Seed for reproducible runs.
    pub seed: u64,
    /// One-time setup calls, run by the package account before measurement.
    pub init: Vec<CallSpec>,
    /// Measured calls, drawn by weight.
    pub calls: Vec<CallSpec>,
}

/// A single entry-function call template.
#[derive(Debug)]
pub struct CallSpec {
    /// Fully qualified function, `0xADDR::module::function`.
    pub function: String,
    pub weight: u32,
    pub args: Vec<ArgSpec>,
}

/// An argument generator. Constants force shared access (contention); random
/// values spread it out.
#[derive(Debug)]
#[allow(inconsistent_fields)]
pub enum ArgSpec {
    ConstU64 { value: u64 },
    RandU64 { min: u64, max: u64 },
    ConstAddress { value: String },
    RandAccount,
}

/// The weight a call template gets when the specification names none.
pub fn default_weight() -> (r: u32)
    ensures
        r == 1,
{
    1
}

/// Multiplier of the generator.
pub const LCG_MULTIPLIER: u64 = 6_364_136_223_846_793_005;

/// Increment of the generator.
pub const LCG_INCREMENT: u64 = 1_442_695_040_888_963_407;

/// Seed perturbation for the measured calls.
pub const CALLS_SEED_MASK: u64 = 0x9E37_79B9_7F4A_7C15;

/// Seed perturbation for the initialization calls.
pub const INIT_SEED_MASK: u64 = 0xD1B5_4A32_D192_ED03;

/// One step of the linear congruential generator, modulo 2^64.
pub open spec fn lcg_step(s: u64) -> u64 {
    u64_specs::wrapping_add(u64_specs::wrapping_mul(s, LCG_MULTIPLIER), LCG_INCREMENT)
}

/// A small linear congruential generator, so runs are reproducible from the
/// workload seed alone.
pub struct Lcg {
    state: u64,
}

impl View for Lcg {
    type V = u64;

    closed spec fn view(&self) -> u64 {
        self.state
    }
}

/// The value `Lcg::range(min, max)` draws from state `s`, and the next state.
pub open spec fn range_draw(s: u64, min: u64, max: u64) -> (u64, u64) {
    if max <= min {
        (min, s)
    } else {
        let s1 = lcg_step(s);
        ((min + s1 % ((max - min) as u64)) as u64, s1)
    }
}

impl Lcg {
    /// A generator starting from `seed`.
    pub fn new(seed: u64) -> (r: Lcg)
        ensures
            r@ == seed,
    {
        Lcg { state: seed }
    }

    /// Advance the generator and return its new state.
    pub fn next(&mut self) -> (r: u64)
        ensures
            final(self)@ == lcg_step(old(self)@),
            r == final(self)@,
    {
        self.state = self.state.wrapping_mul(LCG_MULTIPLIER).wrapping_add(LCG_INCREMENT);
        self.state
    }

    /// A value in `[min, max)`, or `min` when the range is empty.
    pub fn range(&mut self, min: u64, max: u64) -> (r: u64)
        ensures
            (r, final(self)@) == range_draw(old(self)@, min, max),
            max <= min ==> r == min,
            min < max ==> min <= r < max,
    {
        if max <= min {
            return min;
        }
        let x = self.next();
        min + x % (max - min)
    }
}

/// The little-endian bytes of `v`: how BCS encodes a `u64`.
pub open spec fn le_bytes(v: u64) -> Seq<u8> {
    seq![
        (v % 0x100) as u8,
        (v / 0x100 % 0x100) as u8,
        (v / 0x1_0000 % 0x100) as u8,
        (v / 0x100_0000 % 0x100) as u8,
        (v / 0x1_0000_0000 % 0x100) as u8,
        (v / 0x100_0000_0000 % 0x100) as u8,
        (v / 0x1_0000_0000_0000 % 0x100) as u8,
        (v / 0x100_0000_0000_0000 % 0x100) as u8,
    ]
}

/// The BCS encoding of a `u64` argument.
pub open spec fn u64_arg_bytes(v: u64) -> Seq<u8> {
    le_bytes(v)
}

/// Calls `bcs::to_bytes` on a `u64`. Its serializer writes the value's eight
/// little-endian bytes into a fresh `Vec`, which cannot fail.
#[verifier::external_body]
fn bcs_u64(v: u64) -> (r: Vec<u8>)
    ensures
        r@ == u64_arg_bytes(v),
{
    bcs::to_bytes(&v).unwrap()
}

/// `s` has the separator `::` at position `i`.
pub open spec fn sep_at(s: Seq<char>, i: int) -> bool {
    0 <= i && i + 1 < s.len() && s[i] == ':' && s[i + 1] == ':'
}

/// The first position at or after `i` where `s` has the separator, or -1.
pub open spec fn first_sep_from(s: Seq<char>, i: int) -> int
    decreases s.len() - i,
{
    if i < 0 || i + 1 >= s.len() {
        -1
    } else if sep_at(s, i) {
        i
    } else {
        first_sep_from(s, i + 1)
    }
}

/// Where the first separator at or after `i` stands, and that there is none
/// before it.
pub proof fn lemma_first_sep(s: Seq<char>, i: int)
    requires
        0 <= i,
    ensures
        first_sep_from(s, i) == -1 || (i <= first_sep_from(s, i) && sep_at(s, first_sep_from(s, i))),
        forall|j: int|
            i <= j && (first_sep_from(s, i) == -1 || j < first_sep_from(s, i)) ==> !#[trigger] sep_at(
                s,
                j,
            ),
    decreases s.len() - i,
{
    if i + 1 < s.len() && !sep_at(s, i) {
        lemma_first_sep(s, i + 1);
    }
}

/// The pieces of `s` from position `start` on, between the separators `::`
/// found left to right: what `str::split("::")` yields.
pub open spec fn split_from(s: Seq<char>, start: int) -> Seq<Seq<char>>
    decreases s.len() - start,
{
    if start < 0 || start > s.len() {
        Seq::empty()
    } else {
        let i = first_sep_from(s, start);
        if i < 0 {
            seq![s.subrange(start, s.len() as int)]
        } else {
            proof {
                lemma_first_sep(s, start);
            }
            seq![s.subrange(start, i)] + split_from(s, i + 2)
        }
    }
}

/// The pieces of `s` between the separators `::`.
pub open spec fn split_parts(s: Seq<char>) -> Seq<Seq<char>> {
    split_from(s, 0)
}

proof fn lemma_first_sep_skip(s: Seq<char>, start: int, i: int)
    requires
        0 <= start <= i,
        forall|j: int| start <= j < i ==> !#[trigger] sep_at(s, j),
    ensures
        first_sep_from(s, start) == first_sep_from(s, i),
    decreases i - start,
{
    if start < i {
        lemma_first_sep_skip(s, start + 1, i);
    }
}

/// The characters `c[a..b]` as a string.
fn string_of(c: &Vec<char>, a: usize, b: usize) -> (r: String)
    requires
        a <= b <= c@.len(),
    ensures
        r@ == c@.subrange(a as int, b as int),
{
    let mut r = String::new();
    let mut k = a;
    while k < b
        invariant
            a <= k <= b <= c@.len(),
            r@ == c@.subrange(a as int, k as int),
        decreases b - k,
    {
        push_char(&mut r, c[k]);
        assert(c@.subrange(a as int, k + 1) =~= c@.subrange(a as int, k as int).push(c@[k as int]));
        k = k + 1;
    }
    r
}

/// Split a function path `0xADDR::module::function` at its separators `::`
/// into the address, module and function parts; `None` unless there are
/// exactly three parts.
pub fn function_path_parts(path: &str) -> (r: Option<(String, String, String)>)
    ensures
        match r {
            Some((a, m, f)) => split_parts(path@) == seq![a@, m@, f@],
            None => split_parts(path@).len() != 3,
        },
{
    let c = chars_of(path);
    let n = c.len();
    let mut parts: Vec<String> = Vec::new();
    let mut start: usize = 0;
    let mut i: usize = 0;
    while i < n
        invariant
            n == c@.len(),
            c@ == path@,
            start <= i <= n,
            forall|j: int| start <= j < i ==> !#[trigger] sep_at(c@, j),
            parts@.map_values(|p: String| p@) + split_from(c@, start as int) == split_parts(c@),
        decreases n - i,
    {
        if i + 1 < n && c[i] == ':' && c[i + 1] == ':' {
            proof {
                lemma_first_sep_skip(c@, start as int, i as int);
                assert(sep_at(c@, i as int));
                assert(first_sep_from(c@, i as int) == i);
            }
            let ghost before = parts@.map_values(|p: String| p@);
            let piece = string_of(&c, start, i);
            parts.push(piece);
            proof {
                assert(parts@.map_values(|p: String| p@) =~= before.push(piece@));
                assert(before.push(piece@) + split_from(c@, i + 2) =~= before + (seq![piece@]
                    + split_from(c@, i + 2)));
            }
            start = i + 2;
            i = i + 2;
        } else {
            i = i + 1;
        }
    }
    proof {
        lemma_first_sep_skip(c@, start as int, i as int);
        assert(first_sep_from(c@, i as int) == -1);
    }
    let ghost before = parts@.map_values(|p: String| p@);
    let last = string_of(&c, start, n);
    parts.push(last);
    proof {
        assert(parts@.map_values(|p: String| p@) =~= before.push(last@));
        assert(parts@.map_values(|p: String| p@) =~= split_parts(path@));
    }
    if parts.len() != 3 {
        return None;
    }
    let ghost all = parts@.map_values(|p: String| p@);
    let f = parts.pop().unwrap();
    let m = parts.pop().unwrap();
    let a = parts.pop().unwrap();
    proof {
        assert(all =~= seq![a@, m@, f@]);
    }
    Some((a, m, f))
}

/// An argument of a planned call.
#[derive(Debug)]
pub enum PlannedArg {
    /// An already encoded value.
    Bytes(Vec<u8>),
    /// A fixed address, given as its hex literal.
    Address(String),
    /// The address of the simulated user with this index.
    Account(usize),
}

/// The mathematical content of a [`PlannedArg`].
pub enum ArgValue {
    Bytes(Seq<u8>),
    Address(Seq<char>),
    Account(nat),
}

impl View for PlannedArg {
    type V = ArgValue;

    open spec fn view(&self) -> ArgValue {
        match self {
            PlannedArg::Bytes(b) => ArgValue::Bytes(b@),
            PlannedArg::Address(a) => ArgValue::Address(a@),
            PlannedArg::Account(i) => ArgValue::Account(*i as nat),
        }
    }
}

/// One planned transaction: which template, sent by which user with which
/// sequence number, and its arguments.
#[derive(Debug)]
pub struct PlannedCall {
    pub template: usize,
    pub sender: usize,
    pub sequence_number: u64,
    pub args: Vec<PlannedArg>,
}

/// The mathematical content of a [`PlannedCall`].
pub struct CallPlan {
    pub template: nat,
    pub sender: nat,
    pub sequence_number: nat,
    pub args: Seq<ArgValue>,
}

impl View for PlannedCall {
    type V = CallPlan;

    open spec fn view(&self) -> CallPlan {
        CallPlan {
            template: self.template as nat,
            sender: self.sender as nat,
            sequence_number: self.sequence_number as nat,
            args: self.args@.map_values(|a: PlannedArg| a@),
        }
    }
}

/// The value one argument generator yields from generator state `s`, given
/// `n_accounts` simulated users, and the next state.
pub open spec fn gen_arg(a: ArgSpec, n_accounts: nat, s: u64) -> (ArgValue, u64) {
    match a {
        ArgSpec::ConstU64 { value } => (ArgValue::Bytes(u64_arg_bytes(value)), s),
        ArgSpec::RandU64 { min, max } => {
            let (v, s1) = range_draw(s, min, max);
            (ArgValue::Bytes(u64_arg_bytes(v)), s1)
        },
        ArgSpec::ConstAddress { value } => (ArgValue::Address(value@), s),
        ArgSpec::RandAccount => {
            let s1 = lcg_step(s);
            (ArgValue::Account((s1 as usize as nat) % n_accounts), s1)
        },
    }
}

/// The values a list of argument generators yields in order, and the state
/// afterwards.
pub open spec fn gen_args(args: Seq<ArgSpec>, n_accounts: nat, s: u64) -> (Seq<ArgValue>, u64)
    decreases args.len(),
{
    if args.len() == 0 {
        (Seq::empty(), s)
    } else {
        let (prefix, s1) = gen_args(args.drop_last(), n_accounts, s);
        let (v, s2) = gen_arg(args.last(), n_accounts, s1);
        (prefix.push(v), s2)
    }
}

/// The draw weight of a template: its weight, at least 1.
pub open spec fn call_weight(c: CallSpec) -> int {
    if c.weight == 0 {
        1
    } else {
        c.weight as int
    }
}

/// Sum of the draw weights of `calls[0..k]`.
pub open spec fn weight_sum(calls: Seq<CallSpec>, k: int) -> int
    decreases k,
{
    if k <= 0 {
        0
    } else {
        weight_sum(calls, k - 1) + call_weight(calls[k - 1])
    }
}

/// The template a pick of `p` selects, scanning from `k`: the first template
/// whose weight exceeds what is left of the pick, or the last one.
pub open spec fn pick_from(calls: Seq<CallSpec>, k: int, p: int) -> int
    decreases calls.len() - k,
{
    if k >= calls.len() {
        calls.len() - 1
    } else if p < call_weight(calls[k]) {
        k
    } else {
        pick_from(calls, k + 1, p - call_weight(calls[k]))
    }
}

/// The generator state, the next sequence number of every sender, and the
/// calls planned so far.
pub struct PlanState {
    pub rng: u64,
    pub next_seq: Seq<nat>,
    pub planned: Seq<CallPlan>,
}

/// The plan after `t` measured transactions.
pub open spec fn plan_after(spec: WorkloadSpec, n_accounts: nat, t: nat) -> PlanState
    decreases t,
{
    if t == 0 {
        PlanState {
            rng: spec.seed ^ CALLS_SEED_MASK,
            next_seq: Seq::new(spec.accounts as nat, |i: int| 0nat),
            planned: Seq::empty(),
        }
    } else {
        let st = plan_after(spec, n_accounts, (t - 1) as nat);
        let calls = spec.calls@;
        let s1 = lcg_step(st.rng);
        let tpl = pick_from(calls, 0, (s1 % (weight_sum(calls, calls.len() as int) as u64)) as int);
        let s2 = lcg_step(s1);
        let sender = (s2 as usize as nat) % (spec.accounts as nat);
        let (args, s3) = gen_args(calls[tpl].args@, n_accounts, s2);
        PlanState {
            rng: s3,
            next_seq: st.next_seq.update(sender as int, st.next_seq[sender as int] + 1),
            planned: st.planned.push(
                CallPlan {
                    template: tpl as nat,
                    sender,
                    sequence_number: st.next_seq[sender as int],
                    args,
                },
            ),
        }
    }
}

/// Why a workload cannot be planned.
#[derive(Debug, Clone, Copy, PartialEq, Eq, Structural)]
pub enum PlanError {
    /// The workload needs more users than were created.
    NotEnoughAccounts { needed: usize, created: usize },
    /// The workload names no users.
    NoAccounts,
    /// The workload has no measured calls.
    NoCalls,
}

/// Draw the arguments of one call.
fn draw_args(args: &Vec<ArgSpec>, n_accounts: usize, rng: &mut Lcg) -> (out: Vec<PlannedArg>)
    requires
        n_accounts > 0 || forall|k: int| 0 <= k < args@.len() ==> !(args@[k] is RandAccount),
    ensures
        (out@.map_values(|a: PlannedArg| a@), final(rng)@) == gen_args(
            args@,
            n_accounts as nat,
            old(rng)@,
        ),
{
    let mut out: Vec<PlannedArg> = Vec::new();
    let ghost s0 = rng@;
    for k in 0..args.len()
        invariant
            n_accounts > 0 || forall|q: int| 0 <= q < args@.len() ==> !(args@[q] is RandAccount),
            (out@.map_values(|a: PlannedArg| a@), rng@) == gen_args(
                args@.take(k as int),
                n_accounts as nat,
                s0,
            ),
    {
        let ghost before = out@.map_values(|a: PlannedArg| a@);
        proof {
            assert(args@.take(k + 1).drop_last() =~= args@.take(k as int));
        }
        let v = match &args[k] {
            ArgSpec::ConstU64 { value } => PlannedArg::Bytes(bcs_u64(*value)),
            ArgSpec::RandU64 { min, max } => {
                let x = rng.range(*min, *max);
                PlannedArg::Bytes(bcs_u64(x))
            },
            ArgSpec::ConstAddress { value } => PlannedArg::Address(value.clone()),
            ArgSpec::RandAccount => {
                let x = rng.next();
                PlannedArg::Account((x as usize) % n_accounts)
            },
        };
        out.push(v);
        proof {
            assert(out@.map_values(|a: PlannedArg| a@) =~= before.push(v@));
        }
    }
    proof {
        assert(args@.take(args@.len() as int) =~= args@);
    }
    out
}

/// The template index drawn for `pick`, with `total` the sum of the weights.
fn pick_weighted(calls: &Vec<CallSpec>, pick: u64) -> (k: usize)
    requires
        calls@.len() > 0,
    ensures
        k == pick_from(calls@, 0, pick as int),
        k < calls@.len(),
{
    let mut left: u64 = pick;
    let mut k: usize = 0;
    while k < calls.len()
        invariant
            calls@.len() > 0,
            0 <= k <= calls@.len(),
            pick_from(calls@, 0, pick as int) == pick_from(calls@, k as int, left as int),
        decreases calls@.len() - k,
    {
        let w: u64 = if calls[k].weight == 0 {
            1
        } else {
            calls[k].weight as u64
        };
        if left < w {
            return k;
        }
        left = left - w;
        k = k + 1;
    }
    calls.len() - 1
}

/// Sum of the draw weights of all templates.
fn total_weight(calls: &Vec<CallSpec>) -> (t: u64)
    requires
        weight_sum(calls@, calls@.len() as int) <= u64::MAX,
    ensures
        t == weight_sum(calls@, calls@.len() as int),
{
    let mut t: u64 = 0;
    for k in 0..calls.len()
        invariant
            t == weight_sum(calls@, k as int),
            weight_sum(calls@, calls@.len() as int) <= u64::MAX,
    {
        proof {
            lemma_weight_sum_mono(calls@, k + 1, calls@.len() as int);
        }
        let w: u64 = if calls[k].weight == 0 {
            1
        } else {
            calls[k].weight as u64
        };
        t = t + w;
    }
    t
}

proof fn lemma_weight_sum_mono(calls: Seq<CallSpec>, a: int, b: int)
    requires
        0 <= a <= b,
    ensures
        0 <= weight_sum(calls, a) <= weight_sum(calls, b),
    decreases b,
{
    if a < b {
        lemma_weight_sum_mono(calls, a, b - 1);
    } else if a > 0 {
        lemma_weight_sum_mono(calls, 0, a - 1);
    }
}

/// Whether some template of `calls` draws a random account.
pub open spec fn uses_random_account(calls: Seq<CallSpec>) -> bool {
    exists|i: int, k: int|
        0 <= i < calls.len() && 0 <= k < calls[i].args@.len() && (#[trigger] calls[i].args@[k]) is RandAccount
}

/// Plan the next measured transaction.
#[verifier::rlimit(50)]
fn plan_step(
    spec: &WorkloadSpec,
    n_accounts: usize,
    total: u64,
    rng: &mut Lcg,
    next_seq: &mut Vec<u64>,
    planned: &mut Vec<PlannedCall>,
    t: usize,
)
    requires
        spec.accounts > 0,
        n_accounts >= spec.accounts,
        spec.calls@.len() > 0,
        total == weight_sum(spec.calls@, spec.calls@.len() as int),
        total >= 1,
        t < spec.txns,
        old(rng)@ == plan_after(*spec, n_accounts as nat, t as nat).rng,
        old(next_seq)@.len() == spec.accounts,
        forall|q: int|
            0 <= q < old(next_seq)@.len() ==> (#[trigger] old(next_seq)@[q]) as nat == plan_after(
                *spec,
                n_accounts as nat,
                t as nat,
            ).next_seq[q] && old(next_seq)@[q] <= t,
        old(planned)@.len() == t,
        forall|q: int|
            0 <= q < t ==> (#[trigger] old(planned)@[q])@ == plan_after(
                *spec,
                n_accounts as nat,
                t as nat,
            ).planned[q],
    ensures
        final(rng)@ == plan_after(*spec, n_accounts as nat, (t + 1) as nat).rng,
        final(next_seq)@.len() == spec.accounts,
        forall|q: int|
            0 <= q < final(next_seq)@.len() ==> (#[trigger] final(next_seq)@[q]) as nat
                == plan_after(*spec, n_accounts as nat, (t + 1) as nat).next_seq[q]
                && final(next_seq)@[q] <= t + 1,
        final(planned)@.len() == t + 1,
        forall|q: int|
            0 <= q < t + 1 ==> (#[trigger] final(planned)@[q])@ == plan_after(
                *spec,
                n_accounts as nat,
                (t + 1) as nat,
            ).planned[q],
{
    let ghost st = plan_after(*spec, n_accounts as nat, t as nat);
    proof {
        lemma_plan_lengths(*spec, n_accounts as nat, t as nat);
    }
    let x = rng.next();
    let tpl = pick_weighted(&spec.calls, x % total);
    let y = rng.next();
    let sender = (y as usize) % spec.accounts;
    let sequence_number = next_seq[sender];
    next_seq.set(sender, sequence_number + 1);
    let args = draw_args(&spec.calls[tpl].args, n_accounts, rng);
    let call = PlannedCall { template: tpl, sender, sequence_number, args };
    planned.push(call);
}

proof fn lemma_plan_lengths(spec: WorkloadSpec, n_accounts: nat, t: nat)
    requires
        spec.accounts > 0,
    ensures
        plan_after(spec, n_accounts, t).next_seq.len() == spec.accounts,
        plan_after(spec, n_accounts, t).planned.len() == t,
    decreases t,
{
    if t > 0 {
        lemma_plan_lengths(spec, n_accounts, (t - 1) as nat);
    }
}

/// Expand the measured calls of `spec` into `spec.txns` planned calls spread
/// across the first `spec.accounts` of `n_accounts` simulated users.
pub fn plan_calls(spec: &WorkloadSpec, n_accounts: usize) -> (r: Result<Vec<PlannedCall>, PlanError>)
    requires
        weight_sum(spec.calls@, spec.calls@.len() as int) <= u64::MAX,
    ensures
        n_accounts < spec.accounts ==> r == Err::<Vec<PlannedCall>, PlanError>(
            PlanError::NotEnoughAccounts { needed: spec.accounts, created: n_accounts },
        ),
        n_accounts >= spec.accounts && spec.accounts == 0 ==> r == Err::<Vec<PlannedCall>, PlanError>(
            PlanError::NoAccounts,
        ),
        n_accounts >= spec.accounts && spec.accounts > 0 && spec.calls@.len() == 0 ==> r == Err::<
            Vec<PlannedCall>,
            PlanError,
        >(PlanError::NoCalls),
        n_accounts >= spec.accounts && spec.accounts > 0 && spec.calls@.len() > 0 ==> r is Ok
            && r->Ok_0@.map_values(|c: PlannedCall| c@) == plan_after(
            *spec,
            n_accounts as nat,
            spec.txns as nat,
        ).planned,
{
    if n_accounts < spec.accounts {
        return Err(PlanError::NotEnoughAccounts { needed: spec.accounts, created: n_accounts });
    }
    if spec.accounts == 0 {
        return Err(PlanError::NoAccounts);
    }
    if spec.calls.len() == 0 {
        return Err(PlanError::NoCalls);
    }
    let total = total_weight(&spec.calls);
    proof {
        lemma_weight_sum_mono(spec.calls@, 1, spec.calls@.len() as int);
        assert(weight_sum(spec.calls@, 0) == 0);
    }
    let mut rng = Lcg::new(spec.seed ^ CALLS_SEED_MASK);
    let mut next_seq: Vec<u64> = Vec::new();
    for i in 0..spec.accounts
        invariant
            next_seq@.len() == i,
            forall|q: int| 0 <= q < i ==> next_seq@[q] == 0,
    {
        next_seq.push(0);
    }
    let mut planned: Vec<PlannedCall> = Vec::new();
    for t in 0..spec.txns
        invariant
            spec.accounts > 0,
            n_accounts >= spec.accounts,
            spec.calls@.len() > 0,
            total == weight_sum(spec.calls@, spec.calls@.len() as int),
            total >= 1,
            rng@ == plan_after(*spec, n_accounts as nat, t as nat).rng,
            next_seq@.len() == spec.accounts,
            forall|q: int|
                0 <= q < next_seq@.len() ==> (#[trigger] next_seq@[q]) as nat == plan_after(
                    *spec,
                    n_accounts as nat,
                    t as nat,
                ).next_seq[q] && next_seq@[q] <= t,
            planned@.len() == t,
            forall|q: int|
                0 <= q < t ==> (#[trigger] planned@[q])@ == plan_after(
                    *spec,
                    n_accounts as nat,
                    t as nat,
                ).planned[q],
    {
        plan_step(spec, n_accounts, total, &mut rng, &mut next_seq, &mut planned, t);
    }
    proof {
        lemma_plan_lengths(*spec, n_accounts as nat, spec.txns as nat);
        assert(planned@.map_values(|c: PlannedCall| c@) =~= plan_after(
            *spec,
            n_accounts as nat,
            spec.txns as nat,
        ).planned);
    }
    Ok(planned)
}

/// Arguments of the one-time initialization calls, in order; the call with
/// index `i` is sent with sequence number `i`.
pub open spec fn init_args_after(spec: WorkloadSpec, n_accounts: nat, k: nat) -> (Seq<Seq<ArgValue>>, u64)
    decreases k,
{
    if k == 0 {
        (Seq::empty(), spec.seed ^ INIT_SEED_MASK)
    } else {
        let (prev, s) = init_args_after(spec, n_accounts, (k - 1) as nat);
        let (args, s1) = gen_args(spec.init@[k - 1].args@, n_accounts, s);
        (prev.push(args), s1)
    }
}

/// Draw the arguments of the initialization calls of `spec`, which reach
/// `n_accounts` simulated users.
pub fn plan_init(spec: &WorkloadSpec, n_accounts: usize) -> (r: Vec<Vec<PlannedArg>>)
    requires
        n_accounts > 0 || !uses_random_account(spec.init@),
    ensures
        r@.map_values(|a: Vec<PlannedArg>| a@.map_values(|x: PlannedArg| x@)) == init_args_after(
            *spec,
            n_accounts as nat,
            spec.init@.len(),
        ).0,
{
    let mut rng = Lcg::new(spec.seed ^ INIT_SEED_MASK);
    let mut out: Vec<Vec<PlannedArg>> = Vec::new();
    for k in 0..spec.init.len()
        invariant
            n_accounts > 0 || !uses_random_account(spec.init@),
            out@.len() == k,
            init_args_after(*spec, n_accounts as nat, k as nat).0.len() == k,
            forall|q: int|
                0 <= q < k ==> (#[trigger] out@[q])@.map_values(|x: PlannedArg| x@)
                    == init_args_after(*spec, n_accounts as nat, k as nat).0[q],
            rng@ == init_args_after(*spec, n_accounts as nat, k as nat).1,
    {
        proof {
            assert forall|q: int| 0 <= q < spec.init@[k as int].args@.len() implies !(
            spec.init@[k as int].args@[q] is RandAccount) || n_accounts > 0 by {
                if n_accounts == 0 && spec.init@[k as int].args@[q] is RandAccount {
                    assert(uses_random_account(spec.init@));
                }
            }
        }
        let args = draw_args(&spec.init[k].args, n_accounts, &mut rng);
        out.push(args);
    }
    proof {
        assert(out@.map_values(|a: Vec<PlannedArg>| a@.map_values(|x: PlannedArg| x@)) =~= init_args_after(
            *spec,
            n_accounts as nat,
            spec.init@.len(),
        ).0);
    }
    out
}

/// Number of the calls among `planned[0..k]` sent by `sender`.
pub open spec fn sent_by(planned: Seq<CallPlan>, sender: nat, k: int) -> nat
    decreases k,
{
    if k <= 0 {
        0
    } else {
        sent_by(planned, sender, k - 1) + if planned[k - 1].sender == sender {
            1nat
        } else {
            0nat
        }
    }
}

proof fn lemma_pick_in_range(calls: Seq<CallSpec>, k: int, p: int)
    requires
        calls.len() > 0,
        0 <= k,
    ensures
        0 <= pick_from(calls, k, p) < calls.len(),
        k < calls.len() ==> k <= pick_from(calls, k, p),
    decreases calls.len() - k,
{
    if k < calls.len() {
        lemma_pick_in_range(calls, k + 1, p - call_weight(calls[k]));
    }
}

/// Planned calls are well formed and replayable in order: each goes to one
/// of the workload's users and to one of its templates, and each user's
/// sequence numbers count up from 0 without gaps, so every transaction
/// carries exactly the sequence number its sender expects next.
pub proof fn law_plan_sequence_numbers(spec: WorkloadSpec, n_accounts: nat, t: nat)
    requires
        spec.accounts > 0,
        spec.calls@.len() > 0,
    ensures
        plan_after(spec, n_accounts, t).planned.len() == t,
        forall|q: int|
            0 <= q < t ==> {
                let c = #[trigger] plan_after(spec, n_accounts, t).planned[q];
                &&& c.sender < spec.accounts
                &&& c.template < spec.calls@.len()
                &&& c.sequence_number == sent_by(plan_after(spec, n_accounts, t).planned, c.sender, q)
            },
        forall|a: nat|
            a < spec.accounts ==> #[trigger] plan_after(spec, n_accounts, t).next_seq[a as int]
                == sent_by(plan_after(spec, n_accounts, t).planned, a, t as int),
    decreases t,
{
    lemma_plan_lengths(spec, n_accounts, t);
    if t > 0 {
        law_plan_sequence_numbers(spec, n_accounts, (t - 1) as nat);
        let st = plan_after(spec, n_accounts, (t - 1) as nat);
        let now = plan_after(spec, n_accounts, t);
        let calls = spec.calls@;
        let s1 = lcg_step(st.rng);
        lemma_pick_in_range(calls, 0, (s1 % (weight_sum(calls, calls.len() as int) as u64)) as int);
        lemma_plan_lengths(spec, n_accounts, (t - 1) as nat);
        assert forall|a: nat, k: int| 0 <= k <= t - 1 implies sent_by(now.planned, a, k) == sent_by(
            st.planned,
            a,
            k,
        ) by {
            lemma_sent_by_prefix(now.planned, st.planned, a, k);
        }
        assert forall|q: int| 0 <= q < t implies {
            let c = #[trigger] now.planned[q];
            &&& c.sender < spec.accounts
            &&& c.template < spec.calls@.len()
            &&& c.sequence_number == sent_by(now.planned, c.sender, q)
        } by {
            if q < t - 1 {
                assert(now.planned[q] == st.planned[q]);
            }
        }
        assert forall|a: nat| a < spec.accounts implies #[trigger] now.next_seq[a as int] == sent_by(
            now.planned,
            a,
            t as int,
        ) by {
            assert(sent_by(now.planned, a, t - 1) == sent_by(st.planned, a, t - 1));
        }
    }
}

proof fn lemma_sent_by_prefix(long: Seq<CallPlan>, short: Seq<CallPlan>, a: nat, k: int)
    requires
        0 <= k <= short.len() <= long.len(),
        forall|q: int| 0 <= q < short.len() ==> long[q] == short[q],
    ensures
        sent_by(long, a, k) == sent_by(short, a, k),
    decreases k,
{
    if k > 0 {
        lemma_sent_by_prefix(long, short, a, k - 1);
    }
}

proof fn lemma_plan_same_inputs(s1: WorkloadSpec, s2: WorkloadSpec, n_accounts: nat, t: nat)
    requires
        s1.accounts == s2.accounts,
        s1.seed == s2.seed,
        s1.calls@ == s2.calls@,
    ensures
        plan_after(s1, n_accounts, t) == plan_after(s2, n_accounts, t),
    decreases t,
{
    if t > 0 {
        lemma_plan_same_inputs(s1, s2, n_accounts, (t - 1) as nat);
    }
}

proof fn lemma_plan_prefix(spec: WorkloadSpec, n_accounts: nat, t1: nat, t2: nat)
    requires
        spec.accounts > 0,
        t1 <= t2,
    ensures
        plan_after(spec, n_accounts, t2).planned.take(t1 as int) == plan_after(
            spec,
            n_accounts,
            t1,
        ).planned,
    decreases t2,
{
    lemma_plan_lengths(spec, n_accounts, t1);
    lemma_plan_lengths(spec, n_accounts, t2);
    if t1 == t2 {
        assert(plan_after(spec, n_accounts, t2).planned.take(t1 as int) =~= plan_after(
            spec,
            n_accounts,
            t1,
        ).planned);
    } else {
        lemma_plan_prefix(spec, n_accounts, t1, (t2 - 1) as nat);
        lemma_plan_lengths(spec, n_accounts, (t2 - 1) as nat);
        assert(plan_after(spec, n_accounts, t2).planned.take(t1 as int) =~= plan_after(
            spec,
            n_accounts,
            (t2 - 1) as nat,
        ).planned.take(t1 as int));
    }
}

/// Same seed, same workload: the plan of a workload with users depends only
/// on the number of users it names, its seed and its measured calls, not on
/// its init calls. The number of transactions only decides how far the plan
/// runs: a longer run begins with the shorter one.
pub proof fn law_plan_reproducible(
    s1: WorkloadSpec,
    s2: WorkloadSpec,
    n_accounts: nat,
    t1: nat,
    t2: nat,
)
    requires
        s1.accounts > 0,
        s1.accounts == s2.accounts,
        s1.seed == s2.seed,
        s1.calls@ == s2.calls@,
        t1 <= t2,
    ensures
        plan_after(s1, n_accounts, t1).planned == plan_after(s2, n_accounts, t2).planned.take(
            t1 as int,
        ),
        plan_after(s1, n_accounts, t1) == plan_after(s2, n_accounts, t1),
{
    lemma_plan_same_inputs(s1, s2, n_accounts, t1);
    lemma_plan_same_inputs(s1, s2, n_accounts, t2);
    lemma_plan_prefix(s1, n_accounts, t1, t2);
}


proof fn lemma_pick_band(calls: Seq<CallSpec>, k0: int, q: int)
    requires
        0 <= k0 <= calls.len(),
        0 <= q,
        weight_sum(calls, k0) + q < weight_sum(calls, calls.len() as int),
    ensures
        k0 <= pick_from(calls, k0, q) < calls.len(),
        weight_sum(calls, pick_from(calls, k0, q)) <= weight_sum(calls, k0) + q < weight_sum(
            calls,
            pick_from(calls, k0, q) + 1,
        ),
    decreases calls.len() - k0,
{
    if k0 == calls.len() {
        assert(false);
    }
    assert(weight_sum(calls, k0 + 1) == weight_sum(calls, k0) + call_weight(calls[k0]));
    if q >= call_weight(calls[k0]) {
        lemma_pick_band(calls, k0 + 1, q - call_weight(calls[k0]));
    }
}

/// Measured calls are drawn by weight: a pick below the total weight selects
/// the template whose band of picks, from the weights of the templates before
/// it up to that plus its own weight, contains the pick. So each template is
/// selected by exactly as many picks as its weight (at least 1).
pub proof fn law_pick_by_weight(calls: Seq<CallSpec>, p: int)
    requires
        0 <= p < weight_sum(calls, calls.len() as int),
    ensures
        0 <= pick_from(calls, 0, p) < calls.len(),
        weight_sum(calls, pick_from(calls, 0, p)) <= p < weight_sum(calls, pick_from(calls, 0, p))
            + call_weight(calls[pick_from(calls, 0, p)]),
{
    assert(weight_sum(calls, 0) == 0);
    lemma_pick_band(calls, 0, p);
    let k = pick_from(calls, 0, p);
    assert(weight_sum(calls, k + 1) == weight_sum(calls, k) + call_weight(calls[k]));
}


/// An argument value names a user only below `n_accounts`.
pub open spec fn account_below(v: ArgValue, n_accounts: nat) -> bool {
    v matches ArgValue::Account(i) ==> i < n_accounts
}

proof fn lemma_gen_args_accounts(args: Seq<ArgSpec>, n_accounts: nat, s: u64)
    requires
        n_accounts > 0,
    ensures
        gen_args(args, n_accounts, s).0.len() == args.len(),
        forall|k: int|
            0 <= k < args.len() ==> account_below(
                #[trigger] gen_args(args, n_accounts, s).0[k],
                n_accounts,
            ),
    decreases args.len(),
{
    if args.len() > 0 {
        lemma_gen_args_accounts(args.drop_last(), n_accounts, s);
        let (prefix, s1) = gen_args(args.drop_last(), n_accounts, s);
        assert forall|k: int| 0 <= k < args.len() implies account_below(
            #[trigger] gen_args(args, n_accounts, s).0[k],
            n_accounts,
        ) by {
            if k < args.len() - 1 {
                assert(gen_args(args, n_accounts, s).0[k] == prefix[k]);
            }
        }
    }
}

/// Every user a planned call names as an argument is one of the simulated
/// users: its index is below their number (for a workload with users, the
/// only kind that is planned).
pub proof fn law_plan_accounts_in_range(spec: WorkloadSpec, n_accounts: nat, t: nat)
    requires
        spec.accounts > 0,
        n_accounts > 0,
    ensures
        forall|q: int, k: int|
            0 <= q < plan_after(spec, n_accounts, t).planned.len() && 0 <= k < plan_after(
                spec,
                n_accounts,
                t,
            ).planned[q].args.len() ==> account_below(
                #[trigger] plan_after(spec, n_accounts, t).planned[q].args[k],
                n_accounts,
            ),
    decreases t,
{
    if t > 0 {
        law_plan_accounts_in_range(spec, n_accounts, (t - 1) as nat);
        let st = plan_after(spec, n_accounts, (t - 1) as nat);
        let calls = spec.calls@;
        let s1 = lcg_step(st.rng);
        let tpl = pick_from(calls, 0, (s1 % (weight_sum(calls, calls.len() as int) as u64)) as int);
        let s2 = lcg_step(s1);
        lemma_gen_args_accounts(calls[tpl].args@, n_accounts, s2);
        let now = plan_after(spec, n_accounts, t);
        assert forall|q: int, k: int|
            0 <= q < now.planned.len() && 0 <= k < now.planned[q].args.len() implies account_below(
            #[trigger] now.planned[q].args[k],
            n_accounts,
        ) by {
            if q < st.planned.len() {
                assert(now.planned[q] == st.planned[q]);
            }
        }
    }
}


/// A random `u64` argument is drawn from its range: the encoded value is at
/// least `min` and below `max` (exactly `min` when the range is empty), and a
/// constant argument is the constant.
pub proof fn law_u64_args_in_range(a: ArgSpec, n_accounts: nat, s: u64)
    ensures
        a matches ArgSpec::RandU64 { min, max } ==> exists|v: u64|
            gen_arg(a, n_accounts, s).0 == ArgValue::Bytes(#[trigger] u64_arg_bytes(v)) && (if min
                < max {
                min <= v < max
            } else {
                v == min
            }),
        a matches ArgSpec::ConstU64 { value } ==> gen_arg(a, n_accounts, s).0 == ArgValue::Bytes(
            u64_arg_bytes(value),
        ),
{
    if let ArgSpec::RandU64 { min, max } = a {
        let (v, _) = range_draw(s, min, max);
        if min < max {
            let s1 = lcg_step(s);
            let d = (max - min) as u64;
            assert(s1 % d < d) by (nonlinear_arith)
                requires
                    d > 0,
            ;
            assert(v == min + s1 % d);
        }
        assert(gen_arg(a, n_accounts, s).0 == ArgValue::Bytes(u64_arg_bytes(v)));
    }
}

} // verus!
