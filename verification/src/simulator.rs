//! The simulation engine.
//!
//! `Simulator::new` compiles a validated [`ComponentStore`] into a flat
//! signal state vector, an id-to-slot resolution table and a fixed
//! evaluation schedule, then materializes the cycle-0 state with one
//! evaluation pass.  `clock` re-runs the scheduled pass and pushes the prior
//! state onto a history stack; `un_clock` pops it; `reset` rebuilds the
//! cycle-0 state.
//!
//! Scheduling follows the output types: sequential components (registers)
//! are evaluated first each pass, and each reads its input from the state
//! the pass started from — the word its producer settled on by the end of
//! the previous pass, exactly the value captured at the last clock edge.
//! Registers are therefore independent of one another's order: one fed by
//! another delays by a full cycle, and register-to-register feedback is
//! legal.  Combinatorial components follow in a topological order of their
//! port dependencies, so each reads fully settled current-cycle inputs.  A
//! dependency cycle among combinatorial components alone is rejected at
//! build time.

use vstd::prelude::*;

use crate::common::{Input, OutputType, Signal, SimError};
use crate::component_store::{
    comp_inputs_ok, find_id, ids_unique, input_ok, lemma_find_id, valid_store, ComponentStore,
};
use crate::components::{
    alu_math, comp_all_inputs, comp_arity, comp_id, comp_out_type, comp_ports_inputs, CompV,
    Component,
};

verus! {

/// One full snapshot of simulation state: the signal vector and every
/// component's persistent storage, as they stood before a clock edge.
pub struct Snapshot {
    pub state: Vec<Signal>,
    pub storage: Vec<Vec<Signal>>,
}

/// The mathematical value of a [`Snapshot`].
#[verifier::ext_equal]
pub struct SnapV {
    pub state: Seq<u32>,
    pub storage: Seq<Seq<u32>>,
}

impl View for Snapshot {
    type V = SnapV;

    open spec fn view(&self) -> SnapV {
        SnapV { state: self.state@, storage: self.storage.deep_view() }
    }
}

impl DeepView for Snapshot {
    type V = SnapV;

    open spec fn deep_view(&self) -> SnapV {
        self.view()
    }
}

/// The mathematical value of a [`Simulator`]: the compiled store, the
/// per-component base offsets and resolved input slots, the evaluation
/// order, the live state, and the history stack.
#[verifier::ext_equal]
pub struct SimV {
    pub store: Seq<CompV>,
    pub base: Seq<usize>,
    pub resolved: Seq<Seq<usize>>,
    pub order: Seq<usize>,
    pub state: Seq<u32>,
    pub storage: Seq<Seq<u32>>,
    pub history: Seq<SnapV>,
}

/// The compiled, steppable machine built from a valid store.
pub struct Simulator {
    store: ComponentStore,
    base: Vec<usize>,
    resolved: Vec<Vec<usize>>,
    order: Vec<usize>,
    state: Vec<Signal>,
    storage: Vec<Vec<Signal>>,
    history: Vec<Snapshot>,
}

impl View for Simulator {
    type V = SimV;

    closed spec fn view(&self) -> SimV {
        SimV {
            store: self.store@,
            base: self.base@,
            resolved: self.resolved.deep_view(),
            order: self.order@,
            state: self.state@,
            storage: self.storage.deep_view(),
            history: self.history.deep_view(),
        }
    }
}

/// The base offset of component `i`: the sum of the output arities of the
/// components declared before it.
pub open spec fn base_of(s: Seq<CompV>, i: int) -> nat
    decreases i,
    when 0 <= i
{
    if i <= 0 {
        0
    } else {
        base_of(s, i - 1) + comp_arity(s[i - 1])
    }
}

/// The length of the signal state vector: the sum of all declared output
/// arities.
pub open spec fn total_arity(s: Seq<CompV>) -> nat {
    base_of(s, s.len() as int)
}

/// How many persistent storage words component `c` owns.
pub open spec fn storage_arity(c: CompV) -> nat {
    match c {
        CompV::RegFile { .. } => 32,
        _ => 0,
    }
}

/// The flat slot index an input edge resolves to: the base offset of the
/// producer it names, plus the output index.
pub open spec fn slot_of(s: Seq<CompV>, inp: crate::common::InputV) -> int {
    base_of(s, find_id(s, inp.id)) + inp.index
}

/// Base offsets never decrease along the declaration order.
pub proof fn lemma_base_monotonic(s: Seq<CompV>, i: int, j: int)
    requires
        0 <= i <= j,
    ensures
        base_of(s, i) <= base_of(s, j),
    decreases j - i,
{
    if i < j {
        lemma_base_monotonic(s, i, j - 1);
    }
}

/// Every output arity is at most 2, so the state vector holds at most two
/// slots per component.
pub proof fn lemma_base_bound(s: Seq<CompV>, i: int)
    requires
        0 <= i,
    ensures
        base_of(s, i) <= 2 * i,
    decreases i,
{
    if i > 0 {
        lemma_base_bound(s, i - 1);
    }
}

/// A resolvable input edge lands strictly inside the state vector.
pub proof fn lemma_slot_in_bounds(s: Seq<CompV>, inp: crate::common::InputV)
    requires
        input_ok(s, inp),
    ensures
        0 <= slot_of(s, inp) < total_arity(s),
{
    let f = find_id(s, inp.id);
    lemma_find_id(s, inp.id);
    assert(base_of(s, f + 1) == base_of(s, f) + comp_arity(s[f]));
    lemma_base_monotonic(s, f + 1, s.len() as int);
}

/// The outcome of evaluating one component, or of a whole pass: the updated
/// state and storage, or the id and offending signal value of a failed
/// select or address.
pub enum EvalOut {
    Done { state: Seq<u32>, storage: Seq<Seq<u32>> },
    Fault { id: Seq<char>, value: u32 },
}

/// Evaluates component `k`, reading through `st0` (the state the pass
/// started from) and `st` (the state threaded through the pass so far),
/// and writing only into its own reserved output subrange `base[k] ..` of
/// `st` (and, for the register file, its own storage row).
///
/// A register reads its input from `st0`: the word its producer settled on
/// by the end of the previous pass, which is the word captured at the last
/// clock edge.  Reading the snapshot rather than the threaded state keeps
/// registers independent of one another's order, so a register fed by
/// another register delays by a full cycle whatever the declaration order.
/// Combinatorial components read the threaded `st`, whose producer slots
/// are settled by the schedule.  The register file applies an enabled
/// write before its two reads, and reads address 0 as 0.
pub open spec fn eval_comp(
    s: Seq<CompV>,
    base: Seq<usize>,
    resolved: Seq<Seq<usize>>,
    k: int,
    st0: Seq<u32>,
    st: Seq<u32>,
    sto: Seq<Seq<u32>>,
) -> EvalOut {
    match s[k] {
        CompV::Constant { value, .. } => EvalOut::Done {
            state: st.update(base[k] as int, value),
            storage: sto,
        },
        CompV::Wire { .. } => EvalOut::Done {
            state: st.update(base[k] as int, st[resolved[k][0] as int]),
            storage: sto,
        },
        CompV::Mux { id, m_in, .. } => {
            let sel = st[resolved[k][0] as int];
            if sel >= m_in.len() {
                EvalOut::Fault { id, value: sel }
            } else {
                EvalOut::Done {
                    state: st.update(base[k] as int, st[resolved[k][1 + sel] as int]),
                    storage: sto,
                }
            }
        },
        CompV::Alu { op, .. } => EvalOut::Done {
            state: st.update(
                base[k] as int,
                alu_math(op, st[resolved[k][0] as int], st[resolved[k][1] as int]),
            ),
            storage: sto,
        },
        CompV::Register { .. } => EvalOut::Done {
            state: st.update(base[k] as int, st0[resolved[k][0] as int]),
            storage: sto,
        },
        CompV::RegFile { id, .. } => {
            let we = st[resolved[k][4] as int];
            let wa = st[resolved[k][3] as int];
            if we == 1 && wa >= 32 {
                EvalOut::Fault { id, value: wa }
            } else {
                let sto1 = if we == 1 {
                    sto.update(k, sto[k].update(wa as int, st[resolved[k][2] as int]))
                } else {
                    sto
                };
                let ra1 = st[resolved[k][0] as int];
                let ra2 = st[resolved[k][1] as int];
                if ra1 >= 32 {
                    EvalOut::Fault { id, value: ra1 }
                } else if ra2 >= 32 {
                    EvalOut::Fault { id, value: ra2 }
                } else {
                    let v1 = if ra1 == 0 { 0u32 } else { sto1[k][ra1 as int] };
                    let v2 = if ra2 == 0 { 0u32 } else { sto1[k][ra2 as int] };
                    EvalOut::Done {
                        state: st.update(base[k] as int, v1).update(base[k] + 1 as int, v2),
                        storage: sto1,
                    }
                }
            }
        },
        CompV::Probe { .. } => EvalOut::Done { state: st, storage: sto },
    }
}

/// Evaluates the scheduled components from position `i` of the order
/// onward, threading state and storage while every register keeps reading
/// the pass-start state `st0`; stops at the first failure.
pub open spec fn eval_from(
    s: Seq<CompV>,
    base: Seq<usize>,
    resolved: Seq<Seq<usize>>,
    order: Seq<usize>,
    i: int,
    st0: Seq<u32>,
    st: Seq<u32>,
    sto: Seq<Seq<u32>>,
) -> EvalOut
    decreases order.len() - i,
    when 0 <= i
{
    if i >= order.len() {
        EvalOut::Done { state: st, storage: sto }
    } else {
        match eval_comp(s, base, resolved, order[i] as int, st0, st, sto) {
            EvalOut::Fault { id, value } => EvalOut::Fault { id, value },
            EvalOut::Done { state, storage } => eval_from(
                s,
                base,
                resolved,
                order,
                i + 1,
                st0,
                state,
                storage,
            ),
        }
    }
}

/// One full scheduled evaluation pass over the simulator's current state.
pub open spec fn spec_pass(v: SimV) -> EvalOut {
    eval_from(v.store, v.base, v.resolved, v.order, 0, v.state, v.state, v.storage)
}

/// The all-zero signal state a simulator starts from.
pub open spec fn init_state(s: Seq<CompV>) -> Seq<u32> {
    Seq::new(total_arity(s), |i: int| 0u32)
}

/// The initial persistent storage: each register file's configured initial
/// contents, and an empty row for every other component.
pub open spec fn init_storage(s: Seq<CompV>) -> Seq<Seq<u32>> {
    Seq::new(
        s.len(),
        |i: int|
            match s[i] {
                CompV::RegFile { registers, .. } => registers,
                _ => Seq::empty(),
            },
    )
}

/// What `clock` does: push the current state onto history and run one
/// scheduled pass; `None` when the pass fails, in which case the simulator
/// is left untouched.
pub open spec fn spec_clock(v: SimV) -> Option<SimV> {
    match spec_pass(v) {
        EvalOut::Done { state, storage } => Some(
            SimV {
                state,
                storage,
                history: v.history.push(SnapV { state: v.state, storage: v.storage }),
                ..v
            },
        ),
        EvalOut::Fault { .. } => None,
    }
}

/// What `un_clock` does: pop the most recent snapshot and restore it
/// verbatim; `None` when the history is empty.
pub open spec fn spec_un_clock(v: SimV) -> Option<SimV> {
    if v.history.len() == 0 {
        None
    } else {
        Some(
            SimV {
                state: v.history.last().state,
                storage: v.history.last().storage,
                history: v.history.drop_last(),
                ..v
            },
        )
    }
}

/// The compiled lookup tables agree with the store: one base offset per
/// component, and one resolved slot per input edge.
pub open spec fn tables_ok(s: Seq<CompV>, base: Seq<usize>, resolved: Seq<Seq<usize>>) -> bool {
    &&& valid_store(s)
    &&& base.len() == s.len()
    &&& forall|i: int| 0 <= i < s.len() ==> (#[trigger] base[i]) as nat == base_of(s, i)
    &&& resolved.len() == s.len()
    &&& forall|i: int|
        0 <= i < s.len() ==> (#[trigger] resolved[i]).len() == comp_all_inputs(s[i]).len()
    &&& forall|i: int, t: int|
        0 <= i < s.len() && 0 <= t < comp_all_inputs(s[i]).len() ==> (
        #[trigger] resolved[i][t]) as int == slot_of(s, comp_all_inputs(s[i])[t])
}

/// The state vector and the storage rows have the lengths the store
/// declares.
pub open spec fn shapes_ok(s: Seq<CompV>, st: Seq<u32>, sto: Seq<Seq<u32>>) -> bool {
    &&& st.len() == total_arity(s)
    &&& sto.len() == s.len()
    &&& forall|i: int| 0 <= i < s.len() ==> (#[trigger] sto[i]).len() == storage_arity(s[i])
}

/// The evaluation order is a permutation of the component positions in
/// which every sequential component comes before every combinatorial one,
/// and every combinatorial component comes after the producers of all its
/// scheduling inputs.
/// Scheduling input `t` of the component at order position `q` has its
/// producer at an earlier order position.
pub open spec fn scheduled_after_producers(
    s: Seq<CompV>,
    order: Seq<usize>,
    q: int,
    t: int,
) -> bool {
    exists|p: int|
        0 <= p < q && (#[trigger] order[p]) as int == find_id(
            s,
            comp_ports_inputs(s[order[q] as int])[t].id,
        )
}

pub open spec fn order_props(s: Seq<CompV>, order: Seq<usize>) -> bool {
    &&& forall|p: int| 0 <= p < order.len() ==> (#[trigger] order[p]) < s.len()
    &&& forall|p: int, q: int| 0 <= p < q < order.len() ==> order[p] != order[q]
    &&& forall|p: int, q: int|
        0 <= p < q < order.len() && comp_out_type(s[#[trigger] order[q] as int])
            == OutputType::Sequential ==> comp_out_type(s[#[trigger] order[p] as int])
            == OutputType::Sequential
    &&& forall|q: int, t: int|
        0 <= q < order.len() && comp_out_type(s[order[q] as int]) == OutputType::Combinatorial && 0
            <= t < comp_ports_inputs(s[order[q] as int]).len() ==> #[trigger] scheduled_after_producers(
            s,
            order,
            q,
            t,
        )
}

/// Some order position holds `x`.
pub open spec fn order_hits(order: Seq<usize>, x: int) -> bool {
    exists|p: int| 0 <= p < order.len() && ((#[trigger] order[p]) as int) == x
}

/// Every component position appears in the order.
pub open spec fn order_covers(s: Seq<CompV>, order: Seq<usize>) -> bool {
    forall|x: int| 0 <= x < s.len() ==> #[trigger] order_hits(order, x)
}

pub open spec fn schedule_ok(s: Seq<CompV>, order: Seq<usize>) -> bool {
    &&& order.len() == s.len()
    &&& order_props(s, order)
    &&& order_covers(s, order)
}

/// `g` lists the id of `id` (some group member names it).
pub open spec fn group_contains(g: Seq<Seq<char>>, id: Seq<char>) -> bool {
    exists|y: int| 0 <= y < g.len() && g[y] == id
}

/// The component named `a` is combinatorial and one of its scheduling
/// inputs is produced by a component whose id is also in the group.
pub open spec fn blocked_member(s: Seq<CompV>, g: Seq<Seq<char>>, a: Seq<char>) -> bool {
    let i = find_id(s, a);
    &&& i != -1
    &&& comp_out_type(s[i]) == OutputType::Combinatorial
    &&& exists|t: int|
        0 <= t < comp_ports_inputs(s[i]).len() && group_contains(
            g,
            (#[trigger] comp_ports_inputs(s[i])[t]).id,
        )
}

/// A non-empty group of combinatorial components each of which waits on a
/// producer inside the group: such a group necessarily contains a
/// dependency cycle that passes through no sequential component.
pub open spec fn blocked_group(s: Seq<CompV>, g: Seq<Seq<char>>) -> bool {
    &&& g.len() > 0
    &&& forall|x: int| 0 <= x < g.len() ==> blocked_member(s, g, #[trigger] g[x])
}

/// Some combinatorial components of `s` block each other in a cycle.
pub open spec fn has_blocked_group(s: Seq<CompV>) -> bool {
    exists|g: Seq<Seq<char>>| blocked_group(s, g)
}

/// Everything the executable pass relies on, short of the history and the
/// cycle-0 facts.
pub open spec fn sim_wf_core(v: SimV) -> bool {
    &&& tables_ok(v.store, v.base, v.resolved)
    &&& schedule_ok(v.store, v.order)
    &&& shapes_ok(v.store, v.state, v.storage)
}

/// A history snapshot has the shape of a full state.
pub open spec fn snap_wf(s: Seq<CompV>, snap: SnapV) -> bool {
    shapes_ok(s, snap.state, snap.storage)
}

/// The simulator invariant: compiled tables and schedule agree with the
/// store, state and history are well-shaped, and the cycle-0 pass (the one
/// construction ran) succeeds.
pub open spec fn sim_wf(v: SimV) -> bool {
    &&& sim_wf_core(v)
    &&& forall|h: int| 0 <= h < v.history.len() ==> snap_wf(v.store, #[trigger] v.history[h])
    &&& eval_from(
        v.store,
        v.base,
        v.resolved,
        v.order,
        0,
        init_state(v.store),
        init_state(v.store),
        init_storage(v.store),
    ) is Done
}

/// Every resolved slot of component `k` lies inside the state vector.
pub proof fn lemma_resolved_in_bounds(
    s: Seq<CompV>,
    base: Seq<usize>,
    resolved: Seq<Seq<usize>>,
    k: int,
)
    requires
        tables_ok(s, base, resolved),
        0 <= k < s.len(),
    ensures
        forall|t: int|
            0 <= t < comp_all_inputs(s[k]).len() ==> ((#[trigger] resolved[k][t]) as nat)
                < total_arity(s),
{
    assert forall|t: int|
        0 <= t < comp_all_inputs(s[k]).len() implies ((#[trigger] resolved[k][t]) as nat)
        < total_arity(s) by {
        assert(input_ok(s, comp_all_inputs(s[k])[t]));
        lemma_slot_in_bounds(s, comp_all_inputs(s[k])[t]);
    }
}

/// A component's own output subrange lies inside the state vector.
pub proof fn lemma_own_range(s: Seq<CompV>, k: int)
    requires
        0 <= k < s.len(),
    ensures
        base_of(s, k) + comp_arity(s[k]) <= total_arity(s),
{
    assert(base_of(s, k + 1) == base_of(s, k) + comp_arity(s[k]));
    lemma_base_monotonic(s, k + 1, s.len() as int);
}

/// Evaluating one component preserves the shape of state and storage.
pub proof fn lemma_eval_comp_shape(
    s: Seq<CompV>,
    base: Seq<usize>,
    resolved: Seq<Seq<usize>>,
    k: int,
    st0: Seq<u32>,
    st: Seq<u32>,
    sto: Seq<Seq<u32>>,
)
    requires
        tables_ok(s, base, resolved),
        shapes_ok(s, st, sto),
        0 <= k < s.len(),
    ensures
        eval_comp(s, base, resolved, k, st0, st, sto) matches EvalOut::Done { state, storage }
            ==> {
            &&& shapes_ok(s, state, storage)
        },
{
    lemma_own_range(s, k);
}

/// The scheduling inputs are the leading input edges: every component lists
/// its scheduling inputs first, and the register file appends its three
/// write-port edges after them.
pub proof fn lemma_ports_prefix(c: CompV)
    ensures
        comp_ports_inputs(c).len() <= comp_all_inputs(c).len(),
        forall|t: int|
            0 <= t < comp_ports_inputs(c).len() ==> #[trigger] comp_ports_inputs(c)[t]
                == comp_all_inputs(c)[t],
{
}

/// In a store with unique ids, looking a component's own id up finds that
/// component.
pub proof fn lemma_find_own_id(s: Seq<CompV>, x: int)
    requires
        ids_unique(s),
        0 <= x < s.len(),
    ensures
        find_id(s, comp_id(s[x])) == x,
{
    lemma_find_id(s, comp_id(s[x]));
    let r = find_id(s, comp_id(s[x]));
    if r == -1 {
        assert(comp_id(s[x]) == comp_id(s[x]));
    }
}

/// How many of the first `i` scheduling flags are set.
pub open spec fn count_sched(sched: Seq<bool>, i: int) -> nat
    decreases i,
    when 0 <= i
{
    if i <= 0 {
        0
    } else {
        count_sched(sched, i - 1) + if sched[i - 1] {
            1nat
        } else {
            0nat
        }
    }
}

/// The count of set flags in a prefix never exceeds the prefix length.
pub proof fn lemma_count_sched_bound(sched: Seq<bool>, i: int)
    requires
        0 <= i,
    ensures
        count_sched(sched, i) <= i,
    decreases i,
{
    if i > 0 {
        lemma_count_sched_bound(sched, i - 1);
    }
}

/// Setting one clear flag raises the count of the enclosing prefix by one.
pub proof fn lemma_count_sched_update(sched: Seq<bool>, i: int, x: int)
    requires
        0 <= x < sched.len(),
        0 <= i <= sched.len(),
        !sched[x],
    ensures
        count_sched(sched.update(x, true), i) == count_sched(sched, i) + if x < i {
            1nat
        } else {
            0nat
        },
    decreases i,
{
    if i > 0 {
        lemma_count_sched_update(sched, i - 1, x);
    }
}

/// A prefix whose count equals its length is all set.
proof fn lemma_count_sched_full(sched: Seq<bool>, i: int)
    requires
        0 <= i <= sched.len(),
        count_sched(sched, i) == i,
    ensures
        forall|x: int| 0 <= x < i ==> #[trigger] sched[x],
    decreases i,
{
    if i > 0 {
        lemma_count_sched_bound(sched, i - 1);
        lemma_count_sched_full(sched, i - 1);
    }
}

/// Copies a vector of signal words.
fn copy_words(v: &Vec<Signal>) -> (r: Vec<Signal>)
    ensures
        r@ == v@,
{
    let mut out: Vec<Signal> = Vec::new();
    let mut i: usize = 0;
    while i < v.len()
        invariant
            i <= v.len(),
            out@ =~= v@.take(i as int),
        decreases v.len() - i,
    {
        out.push(v[i]);
        i += 1;
    }
    proof {
        assert(out@ =~= v@);
    }
    out
}

/// Copies a storage table row by row.
fn copy_rows(v: &Vec<Vec<Signal>>) -> (r: Vec<Vec<Signal>>)
    ensures
        r.deep_view() == v.deep_view(),
{
    let mut out: Vec<Vec<Signal>> = Vec::new();
    let mut i: usize = 0;
    while i < v.len()
        invariant
            i <= v.len(),
            out@.len() == i,
            forall|j: int| 0 <= j < i ==> out@[j]@ == #[trigger] v@[j]@,
        decreases v.len() - i,
    {
        out.push(copy_words(&v[i]));
        i += 1;
    }
    proof {
        assert(out.deep_view() =~= v.deep_view());
    }
    out
}

/// Computes each component's base offset and the total state length.
#[verifier::loop_isolation(false)]
fn build_base(store: &ComponentStore) -> (r: (Vec<usize>, usize))
    requires
        2 * store@.len() <= usize::MAX,
    ensures
        r.0@.len() == store@.len(),
        forall|i: int| 0 <= i < store@.len() ==> (#[trigger] r.0@[i]) as nat == base_of(store@, i),
        r.1 as nat == total_arity(store@),
{
    let n = store.len();
    let mut base: Vec<usize> = Vec::new();
    let mut acc: usize = 0;
    let mut i: usize = 0;
    while i < n
        invariant
            i <= n,
            base@.len() == i,
            acc as nat == base_of(store@, i as int),
            forall|j: int| 0 <= j < i ==> (#[trigger] base@[j]) as nat == base_of(store@, j),
        decreases n - i,
    {
        base.push(acc);
        let a = store.store[i].arity();
        proof {
            assert(store@[i as int] == store.store@[i as int]@);
            lemma_base_bound(store@, i + 1);
        }
        acc = acc + a;
        i += 1;
    }
    (base, acc)
}

/// Builds the all-zero cycle-0 signal state.
fn zero_state(total: usize, s: Ghost<Seq<CompV>>) -> (r: Vec<Signal>)
    requires
        total as nat == total_arity(s@),
    ensures
        r@ == init_state(s@),
{
    let mut state: Vec<Signal> = Vec::new();
    let mut i: usize = 0;
    while i < total
        invariant
            i <= total,
            state@.len() == i,
            forall|j: int| 0 <= j < i ==> #[trigger] state@[j] == 0,
        decreases total - i,
    {
        state.push(0);
        i += 1;
    }
    proof {
        assert(state@ =~= init_state(s@));
    }
    state
}

/// Builds the initial persistent storage: register-file contents copied
/// from the store, an empty row for everything else.
fn build_storage(store: &ComponentStore) -> (r: Vec<Vec<Signal>>)
    ensures
        r.deep_view() == init_storage(store@),
{
    let n = store.len();
    let mut storage: Vec<Vec<Signal>> = Vec::new();
    let mut k: usize = 0;
    while k < n
        invariant
            k <= n,
            n == store@.len(),
            storage@.len() == k,
            forall|j: int| 0 <= j < k ==> #[trigger] storage@[j]@ == init_storage(store@)[j],
        decreases n - k,
    {
        proof {
            assert(store@[k as int] == store.store@[k as int]@);
        }
        match &store.store[k] {
            Component::RegFile(rf) => {
                storage.push(copy_words(&rf.registers));
            },
            _ => {
                storage.push(Vec::new());
            },
        }
        k += 1;
    }
    proof {
        assert(storage.deep_view() =~~= init_storage(store@));
    }
    storage
}

/// Resolves every input edge of every component into a flat slot index.
#[verifier::loop_isolation(false)]
fn build_resolved(store: &ComponentStore, base: &Vec<usize>) -> (r: Vec<Vec<usize>>)
    requires
        valid_store(store@),
        2 * store@.len() <= usize::MAX,
        base@.len() == store@.len(),
        forall|i: int| 0 <= i < store@.len() ==> (#[trigger] base@[i]) as nat == base_of(store@, i),
    ensures
        tables_ok(store@, base@, r.deep_view()),
{
    let n = store.len();
    let mut resolved: Vec<Vec<usize>> = Vec::new();
    let mut k: usize = 0;
    while k < n
        invariant
            k <= n,
            resolved@.len() == k,
            forall|i: int|
                0 <= i < k ==> (#[trigger] resolved@[i]@).len() == comp_all_inputs(
                    store@[i],
                ).len(),
            forall|i: int, t: int|
                0 <= i < k && 0 <= t < comp_all_inputs(store@[i]).len() ==> (
                #[trigger] resolved@[i]@[t]) as int == slot_of(store@, comp_all_inputs(store@[i])[t]),
        decreases n - k,
    {
        let inputs = store.store[k].all_inputs();
        proof {
            assert(store@[k as int] == store.store@[k as int]@);
            assert(comp_inputs_ok(store@, store@[k as int]));
        }
        let m = inputs.len();
        let mut row: Vec<usize> = Vec::new();
        let mut t: usize = 0;
        while t < m
            invariant
                t <= m,
                row@.len() == t,
                forall|q: int|
                    0 <= q < t ==> (#[trigger] row@[q]) as int == slot_of(
                        store@,
                        comp_all_inputs(store@[k as int])[q],
                    ),
            decreases m - t,
        {
            proof {
                assert(inputs@[t as int]@ == comp_all_inputs(store@[k as int])[t as int]);
                assert(input_ok(store@, comp_all_inputs(store@[k as int])[t as int]));
            }
            let f = match store.get_component_index(&inputs[t].id) {
                Some(f) => f,
                None => {
                    proof {
                        assert(false);
                    }
                    0
                },
            };
            proof {
                lemma_find_id(store@, inputs@[t as int]@.id);
                lemma_slot_in_bounds(store@, comp_all_inputs(store@[k as int])[t as int]);
                lemma_base_bound(store@, store@.len() as int);
            }
            row.push(base[f] + inputs[t].index);
            t += 1;
        }
        resolved.push(row);
        k += 1;
    }
    resolved
}

/// The running invariant of schedule construction: `order` lists distinct
/// scheduled positions, a position is flagged exactly when it is in the
/// order, sequential components stand before combinatorial ones, and every
/// scheduled combinatorial component stands after the producers of its
/// scheduling inputs.
spec fn order_inv(s: Seq<CompV>, sched: Seq<bool>, order: Seq<usize>) -> bool {
    &&& sched.len() == s.len()
    &&& order.len() == count_sched(sched, s.len() as int)
    &&& forall|x: int|
        0 <= x < s.len() ==> ((#[trigger] sched[x]) <==> exists|p: int|
            0 <= p < order.len() && (#[trigger] order[p]) == x)
    &&& order_props(s, order)
}

/// Position `x` is combinatorial and one of its scheduling inputs has an
/// unscheduled producer.
spec fn blocked_cand(s: Seq<CompV>, sched: Seq<bool>, x: int) -> bool {
    exists|t: int|
        0 <= t < comp_ports_inputs(s[x]).len() && !sched[find_id(
            s,
            (#[trigger] comp_ports_inputs(s[x])[t]).id,
        )]
}

/// Scheduling one more ready component preserves the construction
/// invariant: the new entry is distinct from all earlier ones, the flags
/// keep matching the order, and the new entry stands after the producers of
/// its scheduling inputs (for a combinatorial component) or joins the
/// leading sequential segment (for a sequential one).
proof fn lemma_order_push(s: Seq<CompV>, sched0: Seq<bool>, order0: Seq<usize>, x: usize)
    requires
        valid_store(s),
        order_inv(s, sched0, order0),
        (x as int) < s.len(),
        !sched0[x as int],
        comp_out_type(s[x as int]) == OutputType::Combinatorial ==> forall|t: int|
            0 <= t < comp_ports_inputs(s[x as int]).len() ==> sched0[find_id(
                s,
                (#[trigger] comp_ports_inputs(s[x as int])[t]).id,
            )],
        comp_out_type(s[x as int]) == OutputType::Sequential ==> forall|p: int|
            0 <= p < order0.len() ==> comp_out_type(s[(#[trigger] order0[p]) as int])
                == OutputType::Sequential,
    ensures
        order_inv(s, sched0.update(x as int, true), order0.push(x)),
        order0.push(x).len() <= s.len(),
{
    let n = s.len() as int;
    let sched1 = sched0.update(x as int, true);
    let order1 = order0.push(x);
    lemma_count_sched_update(sched0, n, x as int);
    lemma_count_sched_bound(sched1, n);
    assert forall|p: int| 0 <= p < order0.len() implies (#[trigger] order0[p]) != x by {
        if order0[p] == x {
            assert(sched0[x as int]);
        }
    }
    assert forall|y: int|
        0 <= y < n implies ((#[trigger] sched1[y]) <==> exists|p: int|
            0 <= p < order1.len() && (#[trigger] order1[p]) == y) by {
        if y == x {
            assert(order1[order0.len() as int] == x);
        } else {
            if sched1[y] {
                assert(sched0[y]);
                let p = choose|p: int| 0 <= p < order0.len() && (#[trigger] order0[p]) == y;
                assert(order1[p] == y);
            }
            if exists|p: int| 0 <= p < order1.len() && (#[trigger] order1[p]) == y {
                let p = choose|p: int| 0 <= p < order1.len() && (#[trigger] order1[p]) == y;
                assert(order0[p] == y);
                assert(sched0[y]);
            }
        }
    }
    assert forall|p: int, q: int|
        0 <= p < q < order1.len() && comp_out_type(s[(#[trigger] order1[q]) as int])
            == OutputType::Sequential implies comp_out_type(s[(#[trigger] order1[p]) as int])
        == OutputType::Sequential by {
        if q < order0.len() {
            assert(order1[q] == order0[q] && order1[p] == order0[p]);
        } else {
            assert(order1[q] == x);
            assert(order1[p] == order0[p]);
        }
    }
    assert forall|q: int, t: int|
        0 <= q < order1.len() && comp_out_type(s[order1[q] as int]) == OutputType::Combinatorial
            && 0 <= t < comp_ports_inputs(s[order1[q] as int]).len() implies #[trigger] scheduled_after_producers(
        s,
        order1,
        q,
        t,
    ) by {
        if q < order0.len() {
            assert(order1[q] == order0[q]);
            assert(scheduled_after_producers(s, order0, q, t));
            let p = choose|p: int|
                0 <= p < q && (#[trigger] order0[p]) as int == find_id(
                    s,
                    comp_ports_inputs(s[order0[q] as int])[t].id,
                );
            assert(order1[p] == order0[p]);
            assert(0 <= p < q && ((#[trigger] order1[p]) as int) == find_id(
                s,
                comp_ports_inputs(s[order1[q] as int])[t].id,
            ));
        } else {
            assert(order1[q] == x);
            lemma_ports_prefix(s[x as int]);
            assert(comp_inputs_ok(s, s[x as int]));
            assert(comp_ports_inputs(s[x as int])[t] == comp_all_inputs(s[x as int])[t]);
            assert(input_ok(s, comp_all_inputs(s[x as int])[t]));
            lemma_find_id(s, comp_ports_inputs(s[x as int])[t].id);
            let f = find_id(s, comp_ports_inputs(s[x as int])[t].id);
            assert(sched0[f]);
            let p = choose|p: int| 0 <= p < order0.len() && (#[trigger] order0[p]) == f;
            assert(order1[p] == order0[p]);
            assert(0 <= p < q && ((#[trigger] order1[p]) as int) == find_id(
                s,
                comp_ports_inputs(s[order1[q] as int])[t].id,
            ));
        }
    }
    assert(order_inv(s, sched1, order1));
}

/// A prefix of clear flags counts zero.
proof fn lemma_count_sched_false(sched: Seq<bool>, i: int)
    requires
        0 <= i <= sched.len(),
        forall|x: int| 0 <= x < i ==> !(#[trigger] sched[x]),
    ensures
        count_sched(sched, i) == 0,
    decreases i,
{
    if i > 0 {
        lemma_count_sched_false(sched, i - 1);
    }
}

/// Computes the evaluation order: every sequential component first, in
/// declaration order, then combinatorial components scheduled only once all
/// producers of their scheduling inputs are scheduled.  When combinatorial
/// components are left that block each other, construction fails and the
/// error names them.
#[verifier::loop_isolation(false)]
fn build_order(store: &ComponentStore) -> (r: Result<Vec<usize>, SimError>)
    requires
        valid_store(store@),
    ensures
        match r {
            Ok(order) => schedule_ok(store@, order@),
            Err(e) => e matches SimError::CombinatorialLoopError { ids } && blocked_group(
                store@,
                ids.deep_view(),
            ),
        },
{
    let ghost s = store@;
    let n = store.len();
    let mut scheduled: Vec<bool> = Vec::new();
    while scheduled.len() < n
        invariant
            scheduled@.len() <= n,
            forall|x: int| 0 <= x < scheduled@.len() ==> !(#[trigger] scheduled@[x]),
        decreases n - scheduled@.len(),
    {
        scheduled.push(false);
    }
    let mut order: Vec<usize> = Vec::new();
    proof {
        lemma_count_sched_false(scheduled@, n as int);
        assert(order_inv(s, scheduled@, order@));
    }
    // Sequential components first: their outputs carry prior-cycle words,
    // so nothing constrains their position.
    let mut i: usize = 0;
    while i < n
        invariant
            i <= n,
            order_inv(s, scheduled@, order@),
            forall|x: int|
                0 <= x < i && comp_out_type(s[x]) == OutputType::Sequential
                    ==> #[trigger] scheduled@[x],
            forall|x: int| i <= x < n ==> !(#[trigger] scheduled@[x]),
            forall|x: int|
                0 <= x < n && #[trigger] scheduled@[x] ==> comp_out_type(s[x])
                    == OutputType::Sequential,
        decreases n - i,
    {
        proof {
            assert(s[i as int] == store.store@[i as int]@);
        }
        let ot = store.store[i].out_type();
        if ot == OutputType::Sequential {
            let ghost sched0 = scheduled@;
            let ghost order0 = order@;
            proof {
                assert forall|p: int|
                    0 <= p < order0.len() implies comp_out_type(s[(#[trigger] order0[p]) as int])
                    == OutputType::Sequential by {
                    assert(0 <= order0[p] < n && (exists|pp: int|
                        0 <= pp < order0.len() && (#[trigger] order0[pp]) == order0[p]));
                    assert(sched0[order0[p] as int]);
                }
                lemma_order_push(s, sched0, order0, i);
            }
            order.push(i);
            scheduled[i] = true;
        }
        i += 1;
    }
    // Combinatorial components, each once all its producers are in.
    proof {
        lemma_count_sched_bound(scheduled@, n as int);
    }
    let mut progressed = true;
    while progressed
        invariant
            order_inv(s, scheduled@, order@),
            order@.len() <= n,
            forall|x: int|
                0 <= x < n && comp_out_type(s[x]) == OutputType::Sequential
                    ==> #[trigger] scheduled@[x],
            !progressed ==> forall|x: int|
                0 <= x < n && !(#[trigger] scheduled@[x]) && comp_out_type(s[x])
                    == OutputType::Combinatorial ==> blocked_cand(s, scheduled@, x),
        decreases n - order@.len() + (if progressed {
            1int
        } else {
            0int
        }),
    {
        let ghost len0 = order@.len();
        progressed = false;
        let mut i2: usize = 0;
        while i2 < n
            invariant
                i2 <= n,
                order_inv(s, scheduled@, order@),
                order@.len() <= n,
                forall|x: int|
                    0 <= x < n && comp_out_type(s[x]) == OutputType::Sequential
                        ==> #[trigger] scheduled@[x],
                order@.len() >= len0,
                progressed ==> order@.len() > len0,
                !progressed ==> forall|x: int|
                    0 <= x < i2 && !(#[trigger] scheduled@[x]) && comp_out_type(s[x])
                        == OutputType::Combinatorial ==> blocked_cand(s, scheduled@, x),
            decreases n - i2,
        {
            proof {
                assert(s[i2 as int] == store.store@[i2 as int]@);
            }
            let ot2 = store.store[i2].out_type();
            if ot2 == OutputType::Combinatorial && !scheduled[i2] {
                let ports = store.store[i2].ports_inputs();
                proof {
                    lemma_ports_prefix(s[i2 as int]);
                    assert(comp_inputs_ok(s, s[i2 as int]));
                }
                let m = ports.len();
                let mut all_ok = true;
                let mut t: usize = 0;
                while t < m
                    invariant
                        t <= m,
                        all_ok <==> (forall|q: int|
                            0 <= q < t ==> scheduled@[find_id(
                                s,
                                (#[trigger] comp_ports_inputs(s[i2 as int])[q]).id,
                            )]),
                    decreases m - t,
                {
                    proof {
                        assert(ports@[t as int]@ == comp_ports_inputs(s[i2 as int])[t as int]);
                        assert(comp_ports_inputs(s[i2 as int])[t as int] == comp_all_inputs(
                            s[i2 as int],
                        )[t as int]);
                        assert(input_ok(s, comp_all_inputs(s[i2 as int])[t as int]));
                        lemma_find_id(s, comp_ports_inputs(s[i2 as int])[t as int].id);
                    }
                    let f = match store.get_component_index(&ports[t].id) {
                        Some(f) => f,
                        None => {
                            proof {
                                assert(false);
                            }
                            0
                        },
                    };
                    if !scheduled[f] {
                        all_ok = false;
                    }
                    t += 1;
                }
                if all_ok {
                    let ghost sched0 = scheduled@;
                    let ghost order0 = order@;
                    proof {
                        lemma_order_push(s, sched0, order0, i2);
                    }
                    order.push(i2);
                    scheduled[i2] = true;
                    progressed = true;
                }
            }
            i2 += 1;
        }
    }
    if order.len() < n {
        // The remaining combinatorial components block each other: report
        // their ids as an illegal loop.
        let mut ids: Vec<String> = Vec::new();
        let mut x: usize = 0;
        while x < n
            invariant
                x <= n,
                ids@.len() + count_sched(scheduled@, x as int) == x,
                forall|j: int|
                    0 <= j < ids@.len() ==> exists|y: int|
                        0 <= y < n && !scheduled@[y] && (#[trigger] ids@[j])@ == comp_id(s[y]),
                forall|y: int|
                    0 <= y < x && !(#[trigger] scheduled@[y]) ==> group_contains(
                        ids.deep_view(),
                        comp_id(s[y]),
                    ),
            decreases n - x,
        {
            proof {
                assert(s[x as int] == store.store@[x as int]@);
            }
            if !scheduled[x] {
                let ghost ids0 = ids.deep_view();
                ids.push(store.store[x].id().clone());
                proof {
                    assert(ids.deep_view()[ids0.len() as int] == comp_id(s[x as int]));
                    assert forall|y: int|
                        0 <= y < x + 1 && !(#[trigger] scheduled@[y]) implies group_contains(
                        ids.deep_view(),
                        comp_id(s[y]),
                    ) by {
                        if y < x {
                            let j2 = choose|j2: int|
                                0 <= j2 < ids0.len() && (#[trigger] ids0[j2]) == comp_id(s[y]);
                            assert(ids.deep_view()[j2] == comp_id(s[y]));
                        }
                    }
                }
            }
            x += 1;
        }
        proof {
            lemma_count_sched_bound(scheduled@, n as int);
            assert(ids@.len() > 0);
            let g = ids.deep_view();
            assert forall|j: int| 0 <= j < g.len() implies blocked_member(s, g, #[trigger] g[j]) by {
                let y = choose|y: int|
                    0 <= y < n && !scheduled@[y] && (#[trigger] ids@[j])@ == comp_id(s[y]);
                assert(g[j] == comp_id(s[y]));
                lemma_find_own_id(s, y);
                assert(comp_out_type(s[y]) == OutputType::Combinatorial);
                assert(blocked_cand(s, scheduled@, y));
                let t = choose|t: int|
                    0 <= t < comp_ports_inputs(s[y]).len() && !scheduled@[find_id(
                        s,
                        (#[trigger] comp_ports_inputs(s[y])[t]).id,
                    )];
                lemma_ports_prefix(s[y]);
                assert(comp_inputs_ok(s, s[y]));
                assert(input_ok(s, comp_all_inputs(s[y])[t]));
                lemma_find_id(s, comp_ports_inputs(s[y])[t].id);
                let f = find_id(s, comp_ports_inputs(s[y])[t].id);
                assert(0 <= f < n);
                assert(comp_id(s[f]) == comp_ports_inputs(s[y])[t].id);
                assert(group_contains(g, comp_ports_inputs(s[y])[t].id));
            }
            assert(blocked_group(s, g));
        }
        return Err(SimError::CombinatorialLoopError { ids });
    }
    proof {
        lemma_count_sched_full(scheduled@, n as int);
        assert forall|x: int| 0 <= x < s.len() implies #[trigger] order_hits(order@, x) by {
            assert(scheduled@[x]);
            let p = choose|p: int| 0 <= p < order@.len() && (#[trigger] order@[p]) == x;
            assert(0 <= p < order@.len() && ((order@[p]) as int) == x);
        }
        assert(schedule_ok(s, order@));
    }
    Ok(order)
}

impl Simulator {
    /// Evaluates the component at position `k` of the store, reading its
    /// resolved input slots from the threaded `st` (or, for a register,
    /// from `self.state`, the state the pass started from) and writing its
    /// own output subrange of `st` (and, for a register file, its own
    /// storage row of `sto`).
    fn eval_component(&self, k: usize, st: &mut Vec<Signal>, sto: &mut Vec<Vec<Signal>>) -> (r:
        Result<(), SimError>)
        requires
            tables_ok(self@.store, self@.base, self@.resolved),
            shapes_ok(self@.store, old(st)@, old(sto).deep_view()),
            self@.state.len() == total_arity(self@.store),
            k < self@.store.len(),
        ensures
            match r {
                Ok(()) => eval_comp(
                    self@.store,
                    self@.base,
                    self@.resolved,
                    k as int,
                    self@.state,
                    old(st)@,
                    old(sto).deep_view(),
                ) == (EvalOut::Done { state: final(st)@, storage: final(sto).deep_view() }),
                Err(e) => {
                    &&& eval_comp(
                        self@.store,
                        self@.base,
                        self@.resolved,
                        k as int,
                        self@.state,
                        old(st)@,
                        old(sto).deep_view(),
                    ) matches EvalOut::Fault { id, value }
                    &&& e matches SimError::IndexError { id: eid, value: ev } && eval_comp(
                        self@.store,
                        self@.base,
                        self@.resolved,
                        k as int,
                        self@.state,
                        old(st)@,
                        old(sto).deep_view(),
                    ) == (EvalOut::Fault { id: eid@, value: ev })
                },
            },
    {
        proof {
            assert(self@.store[k as int] == self.store.store@[k as int]@);
            lemma_resolved_in_bounds(self@.store, self@.base, self@.resolved, k as int);
            lemma_own_range(self@.store, k as int);
        }
        let base = self.base[k];
        match &self.store.store[k] {
            Component::Constant(c) => {
                st[base] = c.value;
                Ok(())
            },
            Component::Wire(_) => {
                let v = st[self.resolved[k][0]];
                st[base] = v;
                Ok(())
            },
            Component::Mux(c) => {
                let sel = st[self.resolved[k][0]];
                if sel as usize >= c.m_in.len() {
                    return Err(SimError::IndexError { id: c.id.clone(), value: sel });
                }
                let v = st[self.resolved[k][1 + sel as usize]];
                st[base] = v;
                Ok(())
            },
            Component::Alu(c) => {
                let a = st[self.resolved[k][0]];
                let b = st[self.resolved[k][1]];
                st[base] = crate::components::alu_compute(c.op, a, b);
                Ok(())
            },
            Component::Register(_) => {
                let v = self.state[self.resolved[k][0]];
                st[base] = v;
                Ok(())
            },
            Component::RegFile(c) => {
                proof {
                    assert(self@.store[k as int] matches CompV::RegFile { .. });
                    assert(comp_all_inputs(self@.store[k as int]).len() == 5);
                    assert(storage_arity(self@.store[k as int]) == 32);
                    assert(self.resolved@[k as int]@.len() == 5);
                }
                let we = st[self.resolved[k][4]];
                let wa = st[self.resolved[k][3]];
                if we == 1 {
                    if wa >= 32 {
                        return Err(SimError::IndexError { id: c.id.clone(), value: wa });
                    }
                    proof {
                        assert(self.resolved@[k as int]@[2] == self@.resolved[k as int][2]);
                        assert((self@.resolved[k as int][2] as nat) < total_arity(self@.store));
                        assert(sto@[k as int]@.len() == sto.deep_view()[k as int].len());
                    }
                    let wd = st[self.resolved[k][2]];
                    sto[k][wa as usize] = wd;
                    proof {
                        assert(sto.deep_view() =~~= old(sto).deep_view().update(
                            k as int,
                            old(sto).deep_view()[k as int].update(wa as int, wd),
                        ));
                    }
                }
                let ra1 = st[self.resolved[k][0]];
                if ra1 >= 32 {
                    return Err(SimError::IndexError { id: c.id.clone(), value: ra1 });
                }
                let ra2 = st[self.resolved[k][1]];
                if ra2 >= 32 {
                    return Err(SimError::IndexError { id: c.id.clone(), value: ra2 });
                }
                let v1 = if ra1 == 0 { 0 } else { sto[k][ra1 as usize] };
                let v2 = if ra2 == 0 { 0 } else { sto[k][ra2 as usize] };
                let sl = st.len();
                proof {
                    assert(base + 2 <= sl);
                }
                st[base] = v1;
                st[base + 1] = v2;
                Ok(())
            },
            Component::Probe(_) => {
                Ok(())
            },
        }
    }

    /// Runs one full scheduled evaluation pass from the current state,
    /// returning the next state and storage, or the index error that
    /// stopped it.
    #[verifier::loop_isolation(false)]
    fn pass(&self) -> (r: Result<(Vec<Signal>, Vec<Vec<Signal>>), SimError>)
        requires
            sim_wf_core(self@),
        ensures
            match r {
                Ok(p) => {
                    &&& spec_pass(self@) == (EvalOut::Done {
                        state: p.0@,
                        storage: p.1.deep_view(),
                    })
                    &&& shapes_ok(self@.store, p.0@, p.1.deep_view())
                },
                Err(e) => {
                    &&& spec_pass(self@) is Fault
                    &&& e matches SimError::IndexError { id: eid, value: ev } && spec_pass(self@)
                        == (EvalOut::Fault { id: eid@, value: ev })
                },
            },
    {
        let mut st = copy_words(&self.state);
        let mut sto = copy_rows(&self.storage);
        let n = self.order.len();
        let mut i: usize = 0;
        while i < n
            invariant
                i <= n,
                shapes_ok(self@.store, st@, sto.deep_view()),
                eval_from(
                    self@.store,
                    self@.base,
                    self@.resolved,
                    self@.order,
                    i as int,
                    self@.state,
                    st@,
                    sto.deep_view(),
                ) == spec_pass(self@),
            decreases n - i,
        {
            let k = self.order[i];
            let ghost stp = st@;
            let ghost stop = sto.deep_view();
            match self.eval_component(k, &mut st, &mut sto) {
                Ok(()) => {
                    proof {
                        lemma_eval_comp_shape(
                            self@.store,
                            self@.base,
                            self@.resolved,
                            k as int,
                            self@.state,
                            stp,
                            stop,
                        );
                        assert(eval_from(
                            self@.store,
                            self@.base,
                            self@.resolved,
                            self@.order,
                            i as int,
                            self@.state,
                            stp,
                            stop,
                        ) == eval_from(
                            self@.store,
                            self@.base,
                            self@.resolved,
                            self@.order,
                            i + 1,
                            self@.state,
                            st@,
                            sto.deep_view(),
                        ));
                    }
                },
                Err(e) => {
                    proof {
                        assert(eval_from(
                            self@.store,
                            self@.base,
                            self@.resolved,
                            self@.order,
                            i as int,
                            self@.state,
                            stp,
                            stop,
                        ) is Fault);
                    }
                    return Err(e);
                },
            }
            i += 1;
        }
        Ok((st, sto))
    }

    /// Compiles a store into a steppable simulator.
    ///
    /// Validates the store, allocates one state slot per declared output
    /// (base offsets in declaration order), resolves every input edge,
    /// computes the evaluation schedule, and runs one evaluation pass to
    /// materialize the cycle-0 state.  Construction fails with
    /// `ValidationError` exactly when the store is invalid, with
    /// `CombinatorialLoopError` exactly when (in a valid store) some
    /// combinatorial components block each other in a cycle, and with
    /// `IndexError` when the cycle-0 pass hits an out-of-range select or
    /// address.
    pub fn new(store: ComponentStore) -> (r: Result<Simulator, SimError>)
        requires
            2 * store@.len() <= usize::MAX,
        ensures
            match r {
                Ok(sim) => {
                    &&& sim_wf(sim@)
                    &&& sim@.store == store@
                    &&& valid_store(store@)
                    &&& !has_blocked_group(store@)
                    &&& sim@.state.len() == total_arity(store@)
                    &&& sim@.history.len() == 0
                    &&& tables_ok(store@, sim@.base, sim@.resolved)
                    &&& schedule_ok(store@, sim@.order)
                    &&& (EvalOut::Done { state: sim@.state, storage: sim@.storage }) == eval_from(
                        store@,
                        sim@.base,
                        sim@.resolved,
                        sim@.order,
                        0,
                        init_state(store@),
                        init_state(store@),
                        init_storage(store@),
                    )
                },
                Err(e) => match e {
                    SimError::ValidationError { id } => !valid_store(store@)
                        && crate::component_store::validation_offender(store@, id@),
                    SimError::CombinatorialLoopError { ids } => valid_store(store@)
                        && blocked_group(store@, ids.deep_view()) && has_blocked_group(store@),
                    SimError::IndexError { id, value } => valid_store(store@)
                        && !has_blocked_group(store@) && exists|
                        b: Seq<usize>,
                        rv: Seq<Seq<usize>>,
                        ord: Seq<usize>,
                    |
                        tables_ok(store@, b, rv) && schedule_ok(store@, ord) && eval_from(
                            store@,
                            b,
                            rv,
                            ord,
                            0,
                            init_state(store@),
                            init_state(store@),
                            init_storage(store@),
                        ) == (EvalOut::Fault { id: id@, value }),
                    _ => false,
                },
            },
    {
        let ghost s = store@;
        match store.validate() {
            Err(e) => {
                return Err(e);
            },
            Ok(()) => {},
        }
        let (base, total) = build_base(&store);
        let resolved = build_resolved(&store, &base);
        let order = match build_order(&store) {
            Ok(o) => o,
            Err(e) => {
                return Err(e);
            },
        };
        proof {
            lemma_schedule_excludes_blocked(s, order@);
        }
        let state = zero_state(total, Ghost(s));
        let storage = build_storage(&store);
        let mut sim = Simulator { store, base, resolved, order, state, storage, history: Vec::new() };
        proof {
            assert(sim@.history.len() == 0);
            assert(sim_wf_core(sim@));
        }
        let ghost v0 = sim@;
        match sim.pass() {
            Err(e) => {
                proof {
                    if let SimError::IndexError { ref id, value } = e {
                        assert(tables_ok(s, v0.base, v0.resolved) && schedule_ok(s, v0.order)
                            && eval_from(
                            s,
                            v0.base,
                            v0.resolved,
                            v0.order,
                            0,
                            init_state(s),
                            init_state(s),
                            init_storage(s),
                        ) == (EvalOut::Fault { id: id@, value }));
                    }
                }
                Err(e)
            },
            Ok(p) => {
                let (st2, sto2) = p;
                sim.state = st2;
                sim.storage = sto2;
                proof {
                    assert(sim_wf(sim@));
                }
                Ok(sim)
            },
        }
    }

    /// Pushes the current state onto history and runs one scheduled
    /// evaluation pass, advancing one cycle.  On an index error the
    /// simulator is left exactly as it was: the failed pass commits
    /// nothing.
    pub fn clock(&mut self) -> (r: Result<(), SimError>)
        requires
            sim_wf(old(self)@),
        ensures
            sim_wf(final(self)@),
            match r {
                Ok(()) => spec_clock(old(self)@) == Some(final(self)@),
                Err(e) => {
                    &&& final(self)@ == old(self)@
                    &&& spec_clock(old(self)@) is None
                    &&& e matches SimError::IndexError { id, value } && spec_pass(old(self)@)
                        == (EvalOut::Fault { id: id@, value })
                },
            },
            r is Ok <==> spec_pass(old(self)@) is Done,
    {
        match self.pass() {
            Err(e) => Err(e),
            Ok(p) => {
                let (st2, sto2) = p;
                let snap = Snapshot {
                    state: copy_words(&self.state),
                    storage: copy_rows(&self.storage),
                };
                proof {
                    assert(snap@ == (SnapV { state: old(self)@.state, storage: old(self)@.storage }));
                }
                self.history.push(snap);
                self.state = st2;
                self.storage = sto2;
                proof {
                    assert(self@.history =~= old(self)@.history.push(
                        SnapV { state: old(self)@.state, storage: old(self)@.storage },
                    ));
                    assert(spec_clock(old(self)@) == Some(self@)) by {
                        assert(spec_clock(old(self)@)->Some_0 =~= self@);
                    }
                }
                Ok(())
            },
        }
    }

    /// Pops the most recent history snapshot and restores it verbatim,
    /// going back one cycle.  Fails with `HistoryUnderflow` exactly when
    /// the history is empty (the simulator is at cycle 0).
    pub fn un_clock(&mut self) -> (r: Result<(), SimError>)
        requires
            sim_wf(old(self)@),
        ensures
            sim_wf(final(self)@),
            match r {
                Ok(()) => spec_un_clock(old(self)@) == Some(final(self)@),
                Err(e) => {
                    &&& final(self)@ == old(self)@
                    &&& e is HistoryUnderflow
                    &&& old(self)@.history.len() == 0
                },
            },
            r is Ok <==> old(self)@.history.len() > 0,
    {
        match self.history.pop() {
            None => Err(SimError::HistoryUnderflow),
            Some(snap) => {
                self.state = snap.state;
                self.storage = snap.storage;
                proof {
                    assert(old(self)@.history.last() == snap@);
                    assert(self@.history =~= old(self)@.history.drop_last());
                    assert(spec_un_clock(old(self)@) == Some(self@)) by {
                        assert(spec_un_clock(old(self)@)->Some_0 =~= self@);
                    }
                }
                Ok(())
            },
        }
    }

    /// Discards all history and rebuilds the cycle-0 state from the
    /// original store configuration, exactly as construction did.
    pub fn reset(&mut self)
        requires
            sim_wf(old(self)@),
        ensures
            sim_wf(final(self)@),
            final(self)@.store == old(self)@.store,
            final(self)@.base == old(self)@.base,
            final(self)@.resolved == old(self)@.resolved,
            final(self)@.order == old(self)@.order,
            final(self)@.history.len() == 0,
            (EvalOut::Done { state: final(self)@.state, storage: final(self)@.storage })
                == eval_from(
                old(self)@.store,
                old(self)@.base,
                old(self)@.resolved,
                old(self)@.order,
                0,
                init_state(old(self)@.store),
                init_state(old(self)@.store),
                init_storage(old(self)@.store),
            ),
    {
        let ghost s = self@.store;
        let total = self.state.len();
        self.state = zero_state(total, Ghost(s));
        self.storage = build_storage(&self.store);
        self.history = Vec::new();
        proof {
            assert(sim_wf_core(self@));
        }
        let ghost v0 = self@;
        match self.pass() {
            Err(_) => {
                proof {
                    assert(false);
                }
            },
            Ok(p) => {
                let (st2, sto2) = p;
                self.state = st2;
                self.storage = sto2;
            },
        }
    }

    /// How many clock cycles have been applied and not undone: the
    /// simulator stands at `Cycle(n)` where `n` is the history depth.
    pub fn cycle(&self) -> (r: usize)
        ensures
            r == self@.history.len(),
    {
        self.history.len()
    }

    /// The length of the flat signal state vector.
    pub fn state_len(&self) -> (r: usize)
        ensures
            r == self@.state.len(),
    {
        self.state.len()
    }

    /// Read-only access to the compiled netlist, for presentation layers.
    pub fn components(&self) -> (r: &ComponentStore)
        ensures
            r@ == self@.store,
    {
        &self.store
    }

    /// The base offset of the component with the given id: the first slot
    /// of its reserved output subrange.  Fails with `UnknownComponent`
    /// exactly when no component has that id.
    pub fn get_id_start_index(&self, id: &String) -> (r: Result<usize, SimError>)
        requires
            sim_wf(self@),
        ensures
            match r {
                Ok(b) => find_id(self@.store, id@) != -1 && b as nat == base_of(
                    self@.store,
                    find_id(self@.store, id@),
                ),
                Err(e) => {
                    &&& e matches SimError::UnknownComponent { id: eid } && eid@ == id@
                    &&& find_id(self@.store, id@) == -1
                },
            },
    {
        match self.store.get_component_index(id) {
            Some(k) => {
                proof {
                    lemma_find_id(self@.store, id@);
                }
                Ok(self.base[k])
            },
            None => Err(SimError::UnknownComponent { id: id.clone() }),
        }
    }

    /// The current signal value an input edge reads: the producer's slot at
    /// the referenced output index.  Fails with `UnknownComponent` when the
    /// id does not resolve, and with `ValidationError` when the output
    /// index is outside the producer's declared arity.
    pub fn get_input_val(&self, input: &Input) -> (r: Result<Signal, SimError>)
        requires
            sim_wf(self@),
        ensures
            match r {
                Ok(v) => input_ok(self@.store, input@) && v == self@.state[slot_of(
                    self@.store,
                    input@,
                )],
                Err(e) => {
                    &&& !input_ok(self@.store, input@)
                    &&& match e {
                        SimError::UnknownComponent { id } => id@ == input@.id && find_id(
                            self@.store,
                            input@.id,
                        ) == -1,
                        SimError::ValidationError { id } => id@ == input@.id && find_id(
                            self@.store,
                            input@.id,
                        ) != -1,
                        _ => false,
                    }
                },
            },
            r is Ok <==> input_ok(self@.store, input@),
    {
        match self.store.get_component_index(&input.id) {
            None => Err(SimError::UnknownComponent { id: input.id.clone() }),
            Some(k) => {
                proof {
                    lemma_find_id(self@.store, input@.id);
                    assert(self@.store[k as int] == self.store.store@[k as int]@);
                }
                if input.index >= self.store.store[k].arity() {
                    return Err(SimError::ValidationError { id: input.id.clone() });
                }
                let sl = self.state.len();
                proof {
                    lemma_slot_in_bounds(self@.store, input@);
                    assert(self.base@[k as int] + input.index < sl);
                }
                Ok(self.state[self.base[k] + input.index])
            },
        }
    }
}

/// No schedule can exist for a store with a blocked group: the first group
/// member the schedule would reach still waits for a producer inside the
/// group.  Hence a successfully built simulator excludes every
/// combinatorial cycle.
proof fn lemma_group_unscheduled(s: Seq<CompV>, order: Seq<usize>, g: Seq<Seq<char>>, bound: int)
    requires
        valid_store(s),
        order.len() == s.len(),
        order_props(s, order),
        blocked_group(s, g),
        0 <= bound <= order.len(),
    ensures
        forall|q: int|
            0 <= q < bound ==> !group_contains(g, comp_id(s[(#[trigger] order[q]) as int])),
    decreases bound,
{
    if bound > 0 {
        lemma_group_unscheduled(s, order, g, bound - 1);
        let q = bound - 1;
        let i = order[q] as int;
        if group_contains(g, comp_id(s[i])) {
            let y = choose|y: int| 0 <= y < g.len() && g[y] == comp_id(s[i]);
            assert(blocked_member(s, g, g[y]));
            lemma_find_own_id(s, i);
            let t = choose|t: int|
                0 <= t < comp_ports_inputs(s[i]).len() && group_contains(
                    g,
                    (#[trigger] comp_ports_inputs(s[i])[t]).id,
                );
            assert(scheduled_after_producers(s, order, q, t));
            let p = choose|p: int|
                0 <= p < q && (#[trigger] order[p]) as int == find_id(
                    s,
                    comp_ports_inputs(s[i])[t].id,
                );
            lemma_ports_prefix(s[i]);
            assert(comp_inputs_ok(s, s[i]));
            assert(comp_ports_inputs(s[i])[t] == comp_all_inputs(s[i])[t]);
            assert(input_ok(s, comp_all_inputs(s[i])[t]));
            lemma_find_id(s, comp_ports_inputs(s[i])[t].id);
            assert(comp_id(s[(order[p]) as int]) == comp_ports_inputs(s[i])[t].id);
            assert(group_contains(g, comp_id(s[(order[p]) as int])));
            assert(false);
        }
    }
}

/// One `un_clock` exactly reverses one `clock`: the popped snapshot
/// restores the state vector, the storage, and the history to precisely
/// what they were before the clock edge.
pub proof fn lemma_un_clock_reverses_clock(v: SimV)
    requires
        spec_clock(v) is Some,
    ensures
        spec_un_clock(spec_clock(v)->Some_0) == Some(v),
{
    let w = spec_clock(v)->Some_0;
    assert(w.history.last() == (SnapV { state: v.state, storage: v.storage }));
    assert(w.history.drop_last() =~= v.history);
    assert(spec_un_clock(w)->Some_0 =~= v);
}

/// `k` successful `clock` steps from `v`.
pub open spec fn spec_clock_n(v: SimV, k: nat) -> Option<SimV>
    decreases k,
{
    if k == 0 {
        Some(v)
    } else {
        match spec_clock(v) {
            None => None,
            Some(w) => spec_clock_n(w, (k - 1) as nat),
        }
    }
}

/// `k` `un_clock` steps from `v`.
pub open spec fn spec_un_clock_n(v: SimV, k: nat) -> Option<SimV>
    decreases k,
{
    if k == 0 {
        Some(v)
    } else {
        match spec_un_clock_n(v, (k - 1) as nat) {
            None => None,
            Some(w) => spec_un_clock(w),
        }
    }
}

/// Any number of `clock` steps followed by the same number of `un_clock`
/// steps restores the simulator bit for bit: state vector, storage and
/// history included.
pub proof fn lemma_clock_n_un_clock_n(v: SimV, k: nat)
    requires
        spec_clock_n(v, k) is Some,
    ensures
        spec_un_clock_n(spec_clock_n(v, k)->Some_0, k) == Some(v),
    decreases k,
{
    if k > 0 {
        let w1 = spec_clock(v)->Some_0;
        lemma_clock_n_un_clock_n(w1, (k - 1) as nat);
        lemma_un_clock_reverses_clock(v);
    }
}

/// A store from which a full schedule was built has no blocked group: a
/// complete topological order rules out every combinatorial cycle.
pub proof fn lemma_schedule_excludes_blocked(s: Seq<CompV>, order: Seq<usize>)
    requires
        valid_store(s),
        schedule_ok(s, order),
    ensures
        !has_blocked_group(s),
{
    if has_blocked_group(s) {
        let g = choose|g: Seq<Seq<char>>| blocked_group(s, g);
        lemma_group_unscheduled(s, order, g, order.len() as int);
        assert(blocked_member(s, g, g[0]));
        let i = find_id(s, g[0]);
        lemma_find_id(s, g[0]);
        assert(order_hits(order, i));
        let p = choose|p: int| 0 <= p < order.len() && ((#[trigger] order[p]) as int) == i;
        assert(group_contains(g, comp_id(s[(order[p]) as int])));
        assert(false);
    }
}

} // verus!
