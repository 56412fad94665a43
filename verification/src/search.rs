//! The enumeration as a mathematical object: the depth-first search over
//! machine refinements is a step function on an abstract search state,
//! iterated until the frontier stack drains. The driver's contract says that
//! its results are exactly those of some completed iteration of this
//! function, which pins them down: the step function is deterministic.
//!
//! The module also defines the termination measure of the search: every
//! refinement strictly reduces a machine's count of undefined cells, so a
//! weighted sum over the frontier strictly decreases at every pop.

use vstd::prelude::*;
use vstd::arithmetic::power::{lemma_pow_positive, pow};
use crate::machine::{Cell, Direction, MachineModel, cell_at, model_wf};
use crate::semantics::{SpecOutcome, spec_outcome};

verus! {

/// State of one enumeration run: the frontier stack, which halting step
/// counts have been witnessed (`seen[k-1]` for step count `k`), and the
/// statistics counters. `still` and `splits` count the machines that ran out
/// of budget and the machines that were refined; the driver reports only the
/// first three counters, saturated at `u64::MAX`.
#[verifier::ext_equal]
pub ghost struct SearchState {
    pub stack: Seq<MachineModel>,
    pub seen: Seq<bool>,
    pub examined: int,
    pub halted: int,
    pub neverhalt: int,
    pub still: int,
    pub splits: int,
}

/// The root machine of a search over `states`-state machines: an
/// all-undefined table.
pub open spec fn root_model(states: int) -> MachineModel {
    MachineModel {
        max_states: states,
        nas: if states - 1 <= 1 {
            states - 1
        } else {
            1
        },
        cells: Seq::new((2 * states) as nat, |i: int| Cell::Undefined),
        first: true,
    }
}

/// The state an enumeration run starts from.
pub open spec fn init_search(states: int, max_steps: int) -> SearchState {
    SearchState {
        stack: seq![root_model(states)],
        seen: Seq::new(max_steps as nat, |i: int| false),
        examined: 0,
        halted: 0,
        neverhalt: 0,
        still: 0,
        splits: 0,
    }
}

/// The run is over once the frontier is empty.
pub open spec fn search_done(s: SearchState) -> bool {
    s.stack.len() == 0
}

/// Pop the top machine, examine it, and fold the outcome into the state.
pub open spec fn search_step(s: SearchState, max_steps: int, use_h: bool) -> SearchState {
    let m = s.stack.last();
    let rest = s.stack.drop_last();
    match spec_outcome(m, max_steps, use_h) {
        SpecOutcome::Halted(k) => SearchState {
            stack: rest,
            // The guard keeps the state total; an examined machine only ever
            // halts at a step within the budget, so it never fires there.
            seen: if 1 <= k <= s.seen.len() {
                s.seen.update(k - 1, true)
            } else {
                s.seen
            },
            examined: s.examined + 1,
            halted: s.halted + 1,
            neverhalt: s.neverhalt,
            still: s.still,
            splits: s.splits,
        },
        SpecOutcome::StillRunning => SearchState {
            stack: rest,
            seen: s.seen,
            examined: s.examined + 1,
            halted: s.halted,
            neverhalt: s.neverhalt,
            still: s.still + 1,
            splits: s.splits,
        },
        SpecOutcome::NeverHalts => SearchState {
            stack: rest,
            seen: s.seen,
            examined: s.examined + 1,
            halted: s.halted,
            neverhalt: s.neverhalt + 1,
            still: s.still,
            splits: s.splits,
        },
        SpecOutcome::Split(children) => SearchState {
            stack: rest + children,
            seen: s.seen,
            examined: s.examined + 1,
            halted: s.halted,
            neverhalt: s.neverhalt,
            still: s.still,
            splits: s.splits + 1,
        },
    }
}

/// Iterate the step function for up to `fuel` pops, stopping early once the
/// frontier drains.
pub open spec fn search_iter(s: SearchState, max_steps: int, use_h: bool, fuel: nat) -> SearchState
    decreases fuel,
{
    if fuel == 0 || search_done(s) {
        s
    } else {
        search_iter(search_step(s, max_steps, use_h), max_steps, use_h, (fuel - 1) as nat)
    }
}

/// The state after `fuel` pops of a run over `states`-state machines.
pub open spec fn final_state(states: int, max_steps: int, use_h: bool, fuel: nat) -> SearchState {
    search_iter(init_search(states, max_steps), max_steps, use_h, fuel)
}

/// A counter reported by the driver: exact until it would exceed `u64::MAX`.
pub open spec fn sat64(x: int) -> int {
    if x > u64::MAX {
        u64::MAX as int
    } else {
        x
    }
}

/// How the returned step count relates to the witnessed array: the 0-based
/// index of the first unwitnessed entry, or nothing when every step count in
/// the budget was witnessed.
pub open spec fn result_of_seen(seen: Seq<bool>, res: Option<u64>) -> bool {
    match res {
        Option::Some(i) => {
            &&& 0 <= i < seen.len()
            &&& !seen[i as int]
            &&& forall|j: int| 0 <= j < i ==> seen[j]
        },
        Option::None => forall|j: int| 0 <= j < seen.len() ==> seen[j],
    }
}

/// The full contract of one enumeration run: after `fuel` pops the frontier
/// has drained, the reported statistics are the final counters (saturated),
/// and the returned step count is the first unwitnessed one.
pub open spec fn limited_post(
    states: int,
    max_steps: int,
    use_h: bool,
    fuel: nat,
    info: (u64, u64, u64),
    res: Option<u64>,
) -> bool {
    let fin = final_state(states, max_steps, use_h, fuel);
    &&& search_done(fin)
    &&& info.0 as int == sat64(fin.examined)
    &&& info.1 as int == sat64(fin.halted)
    &&& info.2 as int == sat64(fin.neverhalt)
    &&& fin.seen.len() == max_steps
    &&& result_of_seen(fin.seen, res)
}

/// Contract of the witnessed-steps view of a run: after `fuel` pops the
/// frontier has drained and `seen` is the final witnessed array.
pub open spec fn witnessed_post(
    states: int,
    max_steps: int,
    use_h: bool,
    fuel: nat,
    seen: Seq<bool>,
) -> bool {
    let fin = final_state(states, max_steps, use_h, fuel);
    &&& search_done(fin)
    &&& seen == fin.seen
    &&& seen.len() == max_steps
}

// ---------------------------------------------------------------------------
// Iteration lemmas
// ---------------------------------------------------------------------------

/// Iteration composes: running `a + b` pops is running `a`, then `b`.
pub proof fn lemma_iter_compose(s: SearchState, max_steps: int, use_h: bool, a: nat, b: nat)
    ensures
        search_iter(s, max_steps, use_h, a + b) == search_iter(
            search_iter(s, max_steps, use_h, a),
            max_steps,
            use_h,
            b,
        ),
    decreases a,
{
    if a == 0 {
    } else if search_done(s) {
        assert(search_iter(s, max_steps, use_h, a + b) == s);
        assert(search_iter(s, max_steps, use_h, a) == s);
    } else {
        assert(search_iter(s, max_steps, use_h, a + b) == search_iter(
            search_step(s, max_steps, use_h),
            max_steps,
            use_h,
            ((a - 1) + b) as nat,
        ));
        lemma_iter_compose(search_step(s, max_steps, use_h), max_steps, use_h, (a - 1) as nat, b);
    }
}

/// Iterating one more pop acts on the end of the run.
pub proof fn lemma_iter_unfold_end(s: SearchState, max_steps: int, use_h: bool, fuel: nat)
    ensures
        search_iter(s, max_steps, use_h, (fuel + 1) as nat) == {
            let t = search_iter(s, max_steps, use_h, fuel);
            if search_done(t) {
                t
            } else {
                search_step(t, max_steps, use_h)
            }
        },
{
    lemma_iter_compose(s, max_steps, use_h, fuel, 1);
    let t = search_iter(s, max_steps, use_h, fuel);
    if search_done(t) {
        assert(search_iter(t, max_steps, use_h, 1) == t);
    } else {
        assert(search_iter(t, max_steps, use_h, 1) == search_iter(
            search_step(t, max_steps, use_h),
            max_steps,
            use_h,
            0,
        ));
    }
}

/// Once the frontier has drained, further fuel changes nothing.
pub proof fn lemma_iter_stable(s: SearchState, max_steps: int, use_h: bool, fuel: nat, more: nat)
    requires
        fuel <= more,
        search_done(search_iter(s, max_steps, use_h, fuel)),
    ensures
        search_iter(s, max_steps, use_h, more) == search_iter(s, max_steps, use_h, fuel),
    decreases more,
{
    if more > fuel {
        lemma_iter_stable(s, max_steps, use_h, fuel, (more - 1) as nat);
        lemma_iter_unfold_end(s, max_steps, use_h, (more - 1) as nat);
    }
}

/// A step never changes the length of the witnessed array.
pub proof fn lemma_iter_seen_len(s: SearchState, max_steps: int, use_h: bool, fuel: nat)
    ensures
        search_iter(s, max_steps, use_h, fuel).seen.len() == s.seen.len(),
    decreases fuel,
{
    if fuel > 0 && !search_done(s) {
        lemma_iter_seen_len(search_step(s, max_steps, use_h), max_steps, use_h, (fuel - 1) as nat);
    }
}

/// A witnessed entry stays witnessed for the rest of the run.
pub proof fn lemma_iter_seen_monotone(
    s: SearchState,
    max_steps: int,
    use_h: bool,
    fuel: nat,
    i: int,
)
    requires
        0 <= i < s.seen.len(),
        s.seen[i],
    ensures
        search_iter(s, max_steps, use_h, fuel).seen[i],
    decreases fuel,
{
    if fuel > 0 && !search_done(s) {
        lemma_iter_seen_monotone(
            search_step(s, max_steps, use_h),
            max_steps,
            use_h,
            (fuel - 1) as nat,
            i,
        );
    }
}

// ---------------------------------------------------------------------------
// Termination measure of the search
// ---------------------------------------------------------------------------

/// Number of undefined cells in a transition table.
pub open spec fn undef_count(cells: Seq<Cell>) -> nat
    decreases cells.len(),
{
    if cells.len() == 0 {
        0
    } else {
        undef_count(cells.drop_last()) + if cells.last() is Undefined {
            1nat
        } else {
            0nat
        }
    }
}

/// Weight of one frontier machine. The base exceeds the largest possible
/// child count of a refinement (`1 + 4 * 255` children at most), so a
/// machine outweighs all the children it can split into, each of which has
/// one fewer undefined cell.
pub open spec fn m_weight(m: MachineModel) -> int {
    pow(1023, undef_count(m.cells))
}

/// Total weight of the frontier: the search's termination measure.
pub open spec fn stack_pot(s: Seq<MachineModel>) -> int
    decreases s.len(),
{
    if s.len() == 0 {
        0
    } else {
        stack_pot(s.drop_last()) + m_weight(s.last())
    }
}

/// Defining an assigned cell removes exactly one undefined cell.
pub proof fn lemma_undef_count_update(cells: Seq<Cell>, i: int, c: Cell)
    requires
        0 <= i < cells.len(),
        cells[i] is Undefined,
        !(c is Undefined),
    ensures
        undef_count(cells) >= 1,
        undef_count(cells.update(i, c)) == undef_count(cells) - 1,
    decreases cells.len(),
{
    let upd = cells.update(i, c);
    assert(upd.drop_last() =~= if i == cells.len() - 1 {
        cells.drop_last()
    } else {
        cells.drop_last().update(i, c)
    });
    if i == cells.len() - 1 {
    } else {
        lemma_undef_count_update(cells.drop_last(), i, c);
    }
}

/// Every machine weighs at least one unit.
pub proof fn lemma_weight_pos(m: MachineModel)
    ensures
        m_weight(m) >= 1,
{
    lemma_pow_positive(1023, undef_count(m.cells));
}

/// The measure is a sum of positive weights.
pub proof fn lemma_pot_nonneg(s: Seq<MachineModel>)
    ensures
        stack_pot(s) >= 0,
    decreases s.len(),
{
    if s.len() > 0 {
        lemma_pot_nonneg(s.drop_last());
        lemma_weight_pos(s.last());
    }
}

/// The measure distributes over concatenation.
pub proof fn lemma_pot_append(a: Seq<MachineModel>, b: Seq<MachineModel>)
    ensures
        stack_pot(a + b) == stack_pot(a) + stack_pot(b),
    decreases b.len(),
{
    if b.len() == 0 {
        assert(a + b =~= a);
    } else {
        assert((a + b).drop_last() =~= a + b.drop_last());
        assert((a + b).last() == b.last());
        lemma_pot_append(a, b.drop_last());
    }
}

/// All machines of a direction block weigh `w`.
proof fn lemma_dir_block_weight(m: MachineModel, ci: int, wr: bool, d: Direction, w: int)
    requires
        0 <= m.nas,
        0 <= ci < m.cells.len(),
        m.cells[ci] is Undefined,
        w == pow(1023, (undef_count(m.cells) - 1) as nat),
        undef_count(m.cells) >= 1,
    ensures
        stack_pot(crate::semantics::dir_block(m, ci, wr, d)) == (m.nas + 1) * w,
{
    let blk = crate::semantics::dir_block(m, ci, wr, d);
    assert(blk.len() == m.nas + 1);
    assert forall|i: int| 0 <= i < blk.len() implies m_weight(#[trigger] blk[i]) == w by {
        assert(blk[i] == crate::semantics::rule_child(m, ci, i, wr, d));
        lemma_undef_count_update(
            m.cells,
            ci,
            Cell::Rule { next: i as u8, write: wr, dir: d },
        );
    }
    lemma_pot_uniform(blk, w);
}

/// A refinement weighs strictly less than the machine it refines: the
/// termination argument of the search.
pub proof fn lemma_children_pot(m: MachineModel, state: int, sym: bool)
    requires
        model_wf(m),
        0 <= state < m.max_states,
        cell_at(m, state, sym) is Undefined,
    ensures
        stack_pot(crate::semantics::spec_children(m, state, sym)) < m_weight(m),
{
    let ci = crate::machine::cell_index(state, sym);
    let u = undef_count(m.cells);
    lemma_undef_count_update(m.cells, ci, Cell::Halt);
    let w = pow(1023, (u - 1) as nat);
    lemma_pow_positive(1023, (u - 1) as nat);
    assert(pow(1023, u) == 1023 * pow(1023, (u - 1) as nat)) by {
        reveal(pow);
    }
    assert(m_weight(m) == 1023 * w);

    let hc = crate::semantics::halt_child(m, ci);
    let h_seq = seq![hc];
    assert(h_seq.drop_last() =~= Seq::<MachineModel>::empty());
    assert(stack_pot(Seq::<MachineModel>::empty()) == 0);
    assert(h_seq.last() == hc);
    assert(stack_pot(h_seq) == stack_pot(h_seq.drop_last()) + m_weight(h_seq.last()));
    assert(stack_pot(h_seq) == m_weight(hc));
    assert(m_weight(hc) == w);

    let wb0 = crate::semantics::write_block(m, ci, false);
    let wb1 = crate::semantics::write_block(m, ci, true);
    let a = m.nas + 1;
    assert(1 <= a <= 255);
    if m.first {
        lemma_dir_block_weight(m, ci, false, Direction::Right, w);
        lemma_dir_block_weight(m, ci, true, Direction::Right, w);
        assert(stack_pot(wb0) == a * w);
        assert(stack_pot(wb1) == a * w);
    } else {
        lemma_dir_block_weight(m, ci, false, Direction::Left, w);
        lemma_dir_block_weight(m, ci, false, Direction::Right, w);
        lemma_dir_block_weight(m, ci, true, Direction::Left, w);
        lemma_dir_block_weight(m, ci, true, Direction::Right, w);
        lemma_pot_append(
            crate::semantics::dir_block(m, ci, false, Direction::Left),
            crate::semantics::dir_block(m, ci, false, Direction::Right),
        );
        lemma_pot_append(
            crate::semantics::dir_block(m, ci, true, Direction::Left),
            crate::semantics::dir_block(m, ci, true, Direction::Right),
        );
        assert(stack_pot(wb0) == a * w + a * w);
        assert(stack_pot(wb1) == a * w + a * w);
    }
    lemma_pot_append(h_seq, wb0);
    lemma_pot_append(h_seq + wb0, wb1);
    assert(crate::semantics::spec_children(m, state, sym) == (h_seq + wb0) + wb1);
    assert(w + (a * w + a * w) + (a * w + a * w) < 1023 * w) by (nonlinear_arith)
        requires
            1 <= a <= 255,
            w >= 1,
    ;
    assert(w + a * w + a * w < 1023 * w) by (nonlinear_arith)
        requires
            1 <= a <= 255,
            w >= 1,
    ;
}

/// One pop from a well-formed frontier strictly shrinks the measure and
/// keeps the frontier well-formed.
pub proof fn lemma_step_decreases_pot(s: SearchState, max_steps: int, use_h: bool)
    requires
        !search_done(s),
        forall|i: int| 0 <= i < s.stack.len() ==> model_wf(#[trigger] s.stack[i]),
    ensures
        ({
            let s1 = search_step(s, max_steps, use_h);
            &&& stack_pot(s1.stack) < stack_pot(s.stack)
            &&& forall|i: int| 0 <= i < s1.stack.len() ==> model_wf(#[trigger] s1.stack[i])
        }),
{
    let x = s.stack.last();
    let rest = s.stack.drop_last();
    let s1 = search_step(s, max_steps, use_h);
    assert(model_wf(x));
    assert(stack_pot(s.stack) == stack_pot(rest) + m_weight(x));
    lemma_pot_nonneg(rest);
    lemma_weight_pos(x);
    match spec_outcome(x, max_steps, use_h) {
        SpecOutcome::Split(cs) => {
            match crate::semantics::spec_run(x, max_steps) {
                crate::semantics::SimResult::Undefined(st, sy) => {
                    crate::semantics::lemma_sim_undefined(
                        x,
                        crate::semantics::init_config(max_steps),
                        0,
                        max_steps,
                        st,
                        sy,
                    );
                    lemma_children_pot(x, st, sy);
                    crate::semantics::lemma_children_wf(x, st, sy);
                    assert(cs == crate::semantics::spec_children(x, st, sy));
                    lemma_pot_append(rest, cs);
                    assert forall|i: int| 0 <= i < s1.stack.len() implies model_wf(
                        #[trigger] s1.stack[i],
                    ) by {
                        if i < rest.len() {
                            assert(s1.stack[i] == s.stack[i]);
                        } else {
                            assert(s1.stack[i] == cs[i - rest.len()]);
                        }
                    }
                },
                _ => {
                    assert(false);
                },
            }
        },
        _ => {
            assert(s1.stack == rest);
            assert forall|i: int| 0 <= i < s1.stack.len() implies model_wf(
                #[trigger] s1.stack[i],
            ) by {
                assert(s1.stack[i] == s.stack[i]);
            }
        },
    }
}

/// The search always drains: from any well-formed frontier, the measure's
/// worth of pops reaches the empty stack. In particular the search tree of
/// a run is finite, whatever the step budget.
pub proof fn lemma_search_terminates(s: SearchState, max_steps: int, use_h: bool)
    requires
        forall|i: int| 0 <= i < s.stack.len() ==> model_wf(#[trigger] s.stack[i]),
    ensures
        stack_pot(s.stack) >= 0,
        search_done(search_iter(s, max_steps, use_h, stack_pot(s.stack) as nat)),
    decreases stack_pot(s.stack),
{
    lemma_pot_nonneg(s.stack);
    if !search_done(s) {
        lemma_pot_nonneg(s.stack.drop_last());
        lemma_weight_pos(s.stack.last());
        assert(stack_pot(s.stack) == stack_pot(s.stack.drop_last()) + m_weight(s.stack.last()));
        assert(stack_pot(s.stack) >= 1);
        let s1 = search_step(s, max_steps, use_h);
        lemma_step_decreases_pot(s, max_steps, use_h);
        lemma_pot_nonneg(s1.stack);
        lemma_search_terminates(s1, max_steps, use_h);
        lemma_iter_stable(
            s1,
            max_steps,
            use_h,
            stack_pot(s1.stack) as nat,
            (stack_pot(s.stack) - 1) as nat,
        );
        assert(search_iter(s, max_steps, use_h, stack_pot(s.stack) as nat) == search_iter(
            s1,
            max_steps,
            use_h,
            (stack_pot(s.stack) - 1) as nat,
        ));
    }
}


// ---------------------------------------------------------------------------
// Canonical completed runs
// ---------------------------------------------------------------------------

/// A search state with the given frontier and witnessed array, before any
/// machine has been examined.
pub open spec fn state_of(stack: Seq<MachineModel>, seen: Seq<bool>) -> SearchState {
    SearchState {
        stack: stack,
        seen: seen,
        examined: 0,
        halted: 0,
        neverhalt: 0,
        still: 0,
        splits: 0,
    }
}

/// All frontier machines are well formed.
pub open spec fn stack_wf(stack: Seq<MachineModel>) -> bool {
    forall|i: int| 0 <= i < stack.len() ==> model_wf(#[trigger] stack[i])
}

/// The witnessed array a frontier produces when run to completion: for a
/// well-formed frontier, the measure's worth of pops always reaches the
/// empty stack.
pub open spec fn run_seen(
    stack: Seq<MachineModel>,
    seen: Seq<bool>,
    max_steps: int,
    use_h: bool,
) -> Seq<bool> {
    search_iter(state_of(stack, seen), max_steps, use_h, stack_pot(stack) as nat).seen
}

/// Two completed iterations from one state reach the same state, whatever
/// fuel each took.
pub proof fn lemma_done_unique(s: SearchState, max_steps: int, use_h: bool, f1: nat, f2: nat)
    requires
        search_done(search_iter(s, max_steps, use_h, f1)),
        search_done(search_iter(s, max_steps, use_h, f2)),
    ensures
        search_iter(s, max_steps, use_h, f1) == search_iter(s, max_steps, use_h, f2),
{
    if f1 <= f2 {
        lemma_iter_stable(s, max_steps, use_h, f1, f2);
    } else {
        lemma_iter_stable(s, max_steps, use_h, f2, f1);
    }
}

/// The frontier and witnessed array of an iteration depend only on the
/// frontier and witnessed array it starts from, never on the counters.
pub proof fn lemma_iter_frame(
    s1: SearchState,
    s2: SearchState,
    max_steps: int,
    use_h: bool,
    fuel: nat,
)
    requires
        s1.stack == s2.stack,
        s1.seen == s2.seen,
    ensures
        search_iter(s1, max_steps, use_h, fuel).stack == search_iter(
            s2,
            max_steps,
            use_h,
            fuel,
        ).stack,
        search_iter(s1, max_steps, use_h, fuel).seen == search_iter(
            s2,
            max_steps,
            use_h,
            fuel,
        ).seen,
    decreases fuel,
{
    if fuel > 0 && !search_done(s1) {
        let t1 = search_step(s1, max_steps, use_h);
        let t2 = search_step(s2, max_steps, use_h);
        assert(t1.stack == t2.stack);
        assert(t1.seen == t2.seen);
        lemma_iter_frame(t1, t2, max_steps, use_h, (fuel - 1) as nat);
    }
}

/// One pop unfolds a completed run: the run of a non-empty frontier is the
/// run of the frontier and witnessed array its first pop leaves behind.
pub proof fn lemma_run_seen_step(stack: Seq<MachineModel>, seen: Seq<bool>, max_steps: int, use_h: bool)
    requires
        stack_wf(stack),
        stack.len() > 0,
    ensures
        ({
            let s1 = search_step(state_of(stack, seen), max_steps, use_h);
            &&& stack_wf(s1.stack)
            &&& stack_pot(s1.stack) < stack_pot(stack)
            &&& run_seen(stack, seen, max_steps, use_h) == run_seen(
                s1.stack,
                s1.seen,
                max_steps,
                use_h,
            )
        }),
{
    let s0 = state_of(stack, seen);
    let s1 = search_step(s0, max_steps, use_h);
    lemma_step_decreases_pot(s0, max_steps, use_h);
    lemma_pot_nonneg(s1.stack);
    lemma_pot_nonneg(stack.drop_last());
    lemma_weight_pos(stack.last());
    assert(stack_pot(stack) == stack_pot(stack.drop_last()) + m_weight(stack.last()));
    let p = stack_pot(stack);
    assert(search_iter(s0, max_steps, use_h, p as nat) == search_iter(
        s1,
        max_steps,
        use_h,
        (p - 1) as nat,
    ));
    let c1 = state_of(s1.stack, s1.seen);
    lemma_iter_frame(s1, c1, max_steps, use_h, (p - 1) as nat);
    lemma_search_terminates(c1, max_steps, use_h);
    lemma_iter_stable(c1, max_steps, use_h, stack_pot(s1.stack) as nat, (p - 1) as nat);
}

/// A completed run only adds witnessed entries; it never clears one.
pub proof fn lemma_run_seen_grows(stack: Seq<MachineModel>, seen: Seq<bool>, max_steps: int, use_h: bool)
    ensures
        run_seen(stack, seen, max_steps, use_h).len() == seen.len(),
        forall|t: int|
            0 <= t < seen.len() && seen[t] ==> run_seen(stack, seen, max_steps, use_h)[t],
{
    let s0 = state_of(stack, seen);
    lemma_iter_seen_len(s0, max_steps, use_h, stack_pot(stack) as nat);
    assert forall|t: int|
        0 <= t < seen.len() && seen[t] implies run_seen(stack, seen, max_steps, use_h)[t] by {
        lemma_iter_seen_monotone(s0, max_steps, use_h, stack_pot(stack) as nat, t);
    }
}

/// A run of a concatenated frontier completes its top part first: running
/// `a + b` is running `b`, then running `a` from the witnessed array `b`
/// produced.
pub proof fn lemma_run_decompose(
    a: Seq<MachineModel>,
    b: Seq<MachineModel>,
    seen: Seq<bool>,
    max_steps: int,
    use_h: bool,
)
    requires
        stack_wf(a),
        stack_wf(b),
    ensures
        run_seen(a + b, seen, max_steps, use_h) == run_seen(
            a,
            run_seen(b, seen, max_steps, use_h),
            max_steps,
            use_h,
        ),
    decreases stack_pot(b),
{
    lemma_pot_nonneg(b);
    if b.len() == 0 {
        assert(a + b =~= a);
        assert(run_seen(b, seen, max_steps, use_h) == seen);
    } else {
        assert(stack_wf(a + b)) by {
            assert forall|i: int| 0 <= i < (a + b).len() implies model_wf(
                #[trigger] (a + b)[i],
            ) by {
                if i < a.len() {
                    assert((a + b)[i] == a[i]);
                } else {
                    assert((a + b)[i] == b[i - a.len()]);
                }
            }
        }
        let s1 = search_step(state_of(a + b, seen), max_steps, use_h);
        let sb1 = search_step(state_of(b, seen), max_steps, use_h);
        assert((a + b).last() == b.last());
        assert((a + b).drop_last() =~= a + b.drop_last());
        match spec_outcome(b.last(), max_steps, use_h) {
            SpecOutcome::Split(cs) => {
                assert(s1.stack =~= a + (b.drop_last() + cs));
                assert(sb1.stack == b.drop_last() + cs);
            },
            SpecOutcome::Halted(k) => {
                assert(s1.stack =~= a + sb1.stack);
            },
            SpecOutcome::StillRunning => {
                assert(s1.stack =~= a + sb1.stack);
            },
            SpecOutcome::NeverHalts => {
                assert(s1.stack =~= a + sb1.stack);
            },
        }
        assert(s1.seen == sb1.seen);
        lemma_run_seen_step(a + b, seen, max_steps, use_h);
        lemma_run_seen_step(b, seen, max_steps, use_h);
        lemma_pot_nonneg(sb1.stack);
        lemma_run_decompose(a, sb1.stack, sb1.seen, max_steps, use_h);
        assert(s1.stack == a + sb1.stack);
    }
}

/// A frontier whose machines all share one weight weighs `len` times it.
pub proof fn lemma_pot_uniform(s: Seq<MachineModel>, w: int)
    requires
        forall|i: int| 0 <= i < s.len() ==> m_weight(#[trigger] s[i]) == w,
    ensures
        stack_pot(s) == s.len() * w,
    decreases s.len(),
{
    if s.len() > 0 {
        lemma_pot_uniform(s.drop_last(), w);
        assert(s.len() * w == (s.len() - 1) * w + w) by (nonlinear_arith);
    }
}

} // verus!
