//! Global properties of the enumeration, stated over the abstract search of
//! `search` and proved once and for all.

use vstd::prelude::*;
use crate::machine::{Cell, Direction, MachineModel, cell_at, cell_index, model_wf};
use crate::search::{
    final_state, init_search, lemma_done_unique, lemma_iter_compose, lemma_iter_seen_len,
    lemma_iter_seen_monotone, lemma_iter_stable, lemma_pot_nonneg, lemma_run_decompose,
    lemma_run_seen_grows, lemma_run_seen_step, lemma_search_terminates, limited_post,
    result_of_seen, root_model, run_seen, search_done, search_iter, search_step, stack_pot,
    stack_wf, state_of, SearchState,
};
use crate::semantics::{
    Closure, dir_block, rule_child, scan, spec_children, spec_outcome, SpecOutcome,
};

verus! {

/// Counters only grow, and every examined machine is counted exactly once:
/// as halted, as proven never-halting, as out of budget, or as refined.
pub proof fn lemma_examined_partition(s: SearchState, max_steps: int, use_h: bool, fuel: nat)
    ensures
        ({
            let fin = search_iter(s, max_steps, use_h, fuel);
            &&& fin.examined - s.examined == (fin.halted - s.halted) + (fin.neverhalt
                - s.neverhalt) + (fin.still - s.still) + (fin.splits - s.splits)
            &&& fin.halted >= s.halted
            &&& fin.neverhalt >= s.neverhalt
            &&& fin.still >= s.still
            &&& fin.splits >= s.splits
            &&& fin.examined >= s.examined
        }),
    decreases fuel,
{
    if fuel > 0 && !search_done(s) {
        lemma_examined_partition(search_step(s, max_steps, use_h), max_steps, use_h, (fuel
            - 1) as nat);
    }
}

/// Statistics equation of a full run: the machines examined are exactly the
/// halted ones, the proven never-halting ones, the ones that ran out of
/// budget, and the ones that were refined into children. In particular the
/// two reported classification counters never exceed the examined count.
pub proof fn lemma_run_statistics(states: int, max_steps: int, use_h: bool, fuel: nat)
    ensures
        ({
            let fin = final_state(states, max_steps, use_h, fuel);
            &&& fin.examined == fin.halted + fin.neverhalt + fin.still + fin.splits
            &&& 0 <= fin.halted
            &&& 0 <= fin.neverhalt
            &&& fin.halted + fin.neverhalt <= fin.examined
        }),
{
    lemma_examined_partition(init_search(states, max_steps), max_steps, use_h, fuel);
}

/// The search tree of a run is never infinite: for any state count and any
/// finite step budget, some amount of fuel drains the frontier completely.
pub proof fn lemma_run_finite(states: int, max_steps: int, use_h: bool)
    requires
        1 <= states <= u8::MAX,
    ensures
        exists|fuel: nat| #[trigger] search_done(final_state(states, max_steps, use_h, fuel)),
{
    let init = init_search(states, max_steps);
    assert(model_wf(root_model(states)));
    assert forall|i: int| 0 <= i < init.stack.len() implies model_wf(#[trigger] init.stack[i]) by {
        assert(init.stack[i] == root_model(states));
    }
    lemma_search_terminates(init, max_steps, use_h);
    let fuel = stack_pot(init.stack) as nat;
    assert(search_done(final_state(states, max_steps, use_h, fuel)));
}

proof fn lemma_scan_keeps_undef(m: MachineModel, cl: Closure, k: nat)
    requires
        1 <= k,
        cl.states.contains(0),
        cell_at(m, 0, false) is Undefined,
    ensures
        scan(m, cl, k).undef,
    decreases k,
{
    if k > 1 {
        lemma_scan_keeps_undef(m, cl, (k - 1) as nat);
    }
}

/// The root machine of a search is never claimed non-halting: its own
/// starting cell is undefined, which aborts the reachability analysis.
proof fn lemma_root_not_claimed(states: int)
    requires
        1 <= states,
    ensures
        !crate::semantics::spec_cannot_halt(root_model(states)),
{
    let m = root_model(states);
    assert(cell_at(m, 0, false) is Undefined);
    lemma_scan_keeps_undef(m, crate::semantics::init_closure(), m.max_states as nat);
}

/// Every completed run examines more than one machine: the root machine's
/// starting cell is undefined, so the root always splits into at least its
/// halt child and two right-moving rule children, and at least one of them
/// is examined too.
pub proof fn lemma_run_examines_beyond_root(states: int, max_steps: int, use_h: bool, fuel: nat)
    requires
        1 <= states <= u8::MAX,
        1 <= max_steps,
        search_done(final_state(states, max_steps, use_h, fuel)),
    ensures
        final_state(states, max_steps, use_h, fuel).examined >= 2,
{
    let init = init_search(states, max_steps);
    let m = root_model(states);
    lemma_root_not_claimed(states);
    assert(cell_at(m, 0, false) is Undefined);
    assert(crate::semantics::spec_run(m, max_steps)
        == crate::semantics::SimResult::Undefined(0, false));
    let cs = spec_children(m, 0, false);
    lemma_children_count(m, 0, false);
    assert(cs.len() >= 3);

    assert(init.stack.last() == m);
    let s1 = search_step(init, max_steps, use_h);
    assert(spec_outcome(m, max_steps, use_h) == SpecOutcome::Split(cs));
    assert(init.stack.drop_last() =~= Seq::<MachineModel>::empty());
    assert(s1.stack.len() == cs.len());
    assert(s1.examined == 1);

    assert(fuel >= 1);
    assert(final_state(states, max_steps, use_h, fuel) == search_iter(
        s1,
        max_steps,
        use_h,
        (fuel - 1) as nat,
    ));
    assert(fuel - 1 >= 1) by {
        if fuel - 1 == 0 {
            assert(final_state(states, max_steps, use_h, fuel) == s1);
        }
    }
    let s2 = search_step(s1, max_steps, use_h);
    assert(s2.examined == 2);
    assert(search_iter(s1, max_steps, use_h, (fuel - 1) as nat) == search_iter(
        s2,
        max_steps,
        use_h,
        (fuel - 2) as nat,
    ));
    lemma_examined_partition(s2, max_steps, use_h, (fuel - 2) as nat);
}

/// The statistics a driver run reports obey the partition law: as long as
/// the examined counter has not saturated, the halted and proven-never-halt
/// counts together never exceed it.
pub proof fn lemma_reported_statistics(
    states: int,
    max_steps: int,
    use_h: bool,
    fuel: nat,
    info: (u64, u64, u64),
    res: Option<u64>,
)
    requires
        limited_post(states, max_steps, use_h, fuel, info, res),
        info.0 < u64::MAX,
    ensures
        info.1 + info.2 <= info.0,
{
    lemma_run_statistics(states, max_steps, use_h, fuel);
}

/// Any halting time observed when a machine comes up for examination is
/// recorded in the run's final witnessed array: if the machine examined at
/// pop `j` halts at step `k`, then entry `k - 1` of the final array is set.
pub proof fn lemma_halt_recorded(
    states: int,
    max_steps: int,
    use_h: bool,
    j: nat,
    fuel: nat,
    k: int,
)
    requires
        j < fuel,
        !search_done(final_state(states, max_steps, use_h, j)),
        spec_outcome(
            final_state(states, max_steps, use_h, j).stack.last(),
            max_steps,
            use_h,
        ) == SpecOutcome::Halted(k),
        1 <= k <= max_steps,
        0 <= max_steps,
    ensures
        final_state(states, max_steps, use_h, fuel).seen[k - 1],
{
    let init = init_search(states, max_steps);
    let t = final_state(states, max_steps, use_h, j);
    lemma_iter_seen_len(init, max_steps, use_h, j);
    assert(t.seen.len() == max_steps);
    lemma_iter_compose(init, max_steps, use_h, j, (fuel - j) as nat);
    let t1 = search_step(t, max_steps, use_h);
    assert(t1.seen == t.seen.update(k - 1, true));
    assert(search_iter(t, max_steps, use_h, (fuel - j) as nat) == search_iter(
        t1,
        max_steps,
        use_h,
        (fuel - j - 1) as nat,
    ));
    lemma_iter_seen_monotone(t1, max_steps, use_h, (fuel - j - 1) as nat, k - 1);
}

/// Refining one undefined cell produces exactly the advertised number of
/// children: the halt child plus one child per write symbol, direction and
/// permitted target state — with only one direction on the canonical root.
pub proof fn lemma_children_count(m: MachineModel, state: int, sym: bool)
    requires
        0 <= m.nas,
    ensures
        spec_children(m, state, sym).len() == if m.first {
            1 + 2 * (m.nas + 1)
        } else {
            1 + 4 * (m.nas + 1)
        },
{
    let ci = cell_index(state, sym);
    assert(dir_block(m, ci, false, Direction::Left).len() == m.nas + 1);
    assert(dir_block(m, ci, false, Direction::Right).len() == m.nas + 1);
    assert(dir_block(m, ci, true, Direction::Left).len() == m.nas + 1);
    assert(dir_block(m, ci, true, Direction::Right).len() == m.nas + 1);
}

/// Root-machine symmetry: on the very first expansion the move direction is
/// fixed, so no child of the canonical root machine assigns a left-moving
/// rule to the expanded cell.
pub proof fn lemma_root_fixes_direction(m: MachineModel, state: int, sym: bool, i: int)
    requires
        model_wf(m),
        0 <= state < m.max_states,
        m.first,
        0 <= i < spec_children(m, state, sym).len(),
    ensures
        !(cell_at(spec_children(m, state, sym)[i], state, sym) matches Cell::Rule {
            next: _,
            write: _,
            dir: Direction::Left,
        }),
{
    let cs = spec_children(m, state, sym);
    let ci = cell_index(state, sym);
    let a = m.nas + 1;
    lemma_children_count(m, state, sym);
    if i == 0 {
        assert(cs[i].cells == m.cells.update(ci, Cell::Halt));
        assert(cell_at(cs[i], state, sym) == Cell::Halt);
    } else if i <= a {
        assert(cs[i] == dir_block(m, ci, false, Direction::Right)[i - 1]);
        assert(cs[i] == rule_child(m, ci, i - 1, false, Direction::Right));
        assert(cell_at(cs[i], state, sym) == Cell::Rule {
            next: (i - 1) as u8,
            write: false,
            dir: Direction::Right,
        });
    } else {
        assert(cs[i] == dir_block(m, ci, true, Direction::Right)[i - 1 - a]);
        assert(cs[i] == rule_child(m, ci, i - 1 - a, true, Direction::Right));
        assert(cell_at(cs[i], state, sym) == Cell::Rule {
            next: (i - 1 - a) as u8,
            write: true,
            dir: Direction::Right,
        });
    }
}

/// Growing the budget never loses a witnessed halting time, whole-run
/// form: every entry the completed small-budget run sets within its window
/// is also set by the completed large-budget run of the same frontier,
/// whenever the starting witnessed arrays are related the same way.
proof fn lemma_run_seen_budget_monotone(
    stack: Seq<MachineModel>,
    v: Seq<bool>,
    w: Seq<bool>,
    ms: int,
    big: int,
    use_h: bool,
)
    requires
        1 <= ms <= big,
        stack_wf(stack),
        v.len() == ms,
        w.len() == big,
        forall|t: int| 0 <= t < ms && v[t] ==> w[t],
    ensures
        forall|t: int|
            0 <= t < ms && run_seen(stack, v, ms, use_h)[t] ==> run_seen(
                stack,
                w,
                big,
                use_h,
            )[t],
    decreases stack_pot(stack),
{
    lemma_pot_nonneg(stack);
    if stack.len() == 0 {
        assert(run_seen(stack, v, ms, use_h) == v);
        assert(run_seen(stack, w, big, use_h) == w);
    } else {
        let x = stack.last();
        let rest = stack.drop_last();
        assert(stack_wf(rest)) by {
            assert forall|i: int| 0 <= i < rest.len() implies model_wf(#[trigger] rest[i]) by {
                assert(rest[i] == stack[i]);
            }
        }
        let sv1 = search_step(state_of(stack, v), ms, use_h);
        let sw1 = search_step(state_of(stack, w), big, use_h);
        lemma_run_seen_step(stack, v, ms, use_h);
        lemma_pot_nonneg(sv1.stack);
        match spec_outcome(x, ms, use_h) {
            SpecOutcome::Halted(k) => {
                crate::semantics::lemma_sim_halt_bound(
                    x,
                    crate::semantics::init_config(ms),
                    0,
                    ms,
                    k,
                );
                lemma_outcome_budget_monotone(x, ms, big, use_h);
                lemma_run_seen_step(stack, w, big, use_h);
                assert(sv1.stack == rest);
                assert(sw1.stack == rest);
                assert(sv1.seen == v.update(k - 1, true));
                assert(sw1.seen == w.update(k - 1, true));
                lemma_run_seen_budget_monotone(rest, sv1.seen, sw1.seen, ms, big, use_h);
            },
            SpecOutcome::NeverHalts => {
                lemma_outcome_budget_monotone(x, ms, big, use_h);
                lemma_run_seen_step(stack, w, big, use_h);
                assert(sv1.stack == rest);
                assert(sw1.stack == rest);
                lemma_run_seen_budget_monotone(rest, v, w, ms, big, use_h);
            },
            SpecOutcome::Split(cs) => {
                lemma_outcome_budget_monotone(x, ms, big, use_h);
                lemma_run_seen_step(stack, w, big, use_h);
                assert(sv1.stack == rest + cs);
                assert(sw1.stack == rest + cs);
                lemma_run_seen_budget_monotone(rest + cs, v, w, ms, big, use_h);
            },
            SpecOutcome::StillRunning => {
                // Within the small budget the machine contributes nothing.
                // Within the large budget it runs its whole subtree first,
                // which only adds witnessed entries.
                assert(sv1.stack == rest);
                assert(sv1.seen == v);
                assert(stack_wf(seq![x])) by {
                    assert(seq![x][0] == x);
                }
                assert(stack == rest + seq![x]) by {
                    assert(stack =~= rest + seq![x]);
                }
                lemma_run_decompose(rest, seq![x], w, big, use_h);
                let u = run_seen(seq![x], w, big, use_h);
                lemma_run_seen_grows(seq![x], w, big, use_h);
                lemma_run_seen_budget_monotone(rest, v, u, ms, big, use_h);
            },
        }
    }
}

/// Result monotonicity across budgets: growing the budget keeps every
/// witnessed halting time, so the first unwitnessed step count a run
/// reports can never shrink. A large-budget run never returns an index
/// below a small-budget run's, and below the small budget's whole window
/// when the small run witnessed everything.
pub proof fn lemma_result_budget_monotone(
    states: int,
    ms: int,
    big: int,
    use_h: bool,
    f1: nat,
    f2: nat,
    info1: (u64, u64, u64),
    res1: Option<u64>,
    info2: (u64, u64, u64),
    res2: Option<u64>,
)
    requires
        1 <= states <= u8::MAX,
        1 <= ms <= big,
        limited_post(states, ms, use_h, f1, info1, res1),
        limited_post(states, big, use_h, f2, info2, res2),
    ensures
        res1 matches Some(k) ==> !(res2 matches Some(k2) && k2 < k),
        res1 is None ==> !(res2 matches Some(k2) && (k2 as int) < ms),
{
    let roots = seq![root_model(states)];
    assert(stack_wf(roots)) by {
        assert(model_wf(root_model(states)));
        assert(roots[0] == root_model(states));
    }
    let vms = Seq::new(ms as nat, |i: int| false);
    let vbig = Seq::new(big as nat, |i: int| false);
    assert(init_search(states, ms) =~= state_of(roots, vms));
    assert(init_search(states, big) =~= state_of(roots, vbig));
    lemma_search_terminates(state_of(roots, vms), ms, use_h);
    lemma_search_terminates(state_of(roots, vbig), big, use_h);
    lemma_done_unique(init_search(states, ms), ms, use_h, f1, stack_pot(roots) as nat);
    lemma_done_unique(init_search(states, big), big, use_h, f2, stack_pot(roots) as nat);
    let fin1 = final_state(states, ms, use_h, f1);
    let fin2 = final_state(states, big, use_h, f2);
    assert(fin1.seen == run_seen(roots, vms, ms, use_h));
    assert(fin2.seen == run_seen(roots, vbig, big, use_h));
    lemma_run_seen_budget_monotone(roots, vms, vbig, ms, big, use_h);
    match (res1, res2) {
        (Option::Some(k), Option::Some(k2)) => {
            if k2 < k {
                assert(fin1.seen[k2 as int]);
                assert(fin2.seen[k2 as int]);
                assert(false);
            }
        },
        (Option::None, Option::Some(k2)) => {
            if (k2 as int) < ms {
                assert(fin1.seen[k2 as int]);
                assert(fin2.seen[k2 as int]);
                assert(false);
            }
        },
        _ => {},
    }
}

/// Growing the budget loses nothing a machine was conclusively found to
/// do: a machine classified as halted (at some step), as never halting, or
/// as needing refinement keeps exactly that classification under any
/// larger budget. Only the out-of-budget classification can change. This
/// is the single-machine core of `lemma_result_budget_monotone` above.
pub proof fn lemma_outcome_budget_monotone(m: MachineModel, max_steps: int, larger: int, use_h: bool)
    requires
        max_steps <= larger,
        !(spec_outcome(m, max_steps, use_h) is StillRunning),
    ensures
        spec_outcome(m, larger, use_h) == spec_outcome(m, max_steps, use_h),
{
    if !(use_h && crate::semantics::spec_cannot_halt(m)) {
        crate::semantics::lemma_run_budget_monotone(m, max_steps, larger);
    }
}

proof fn lemma_result_unique(seen: Seq<bool>, r1: Option<u64>, r2: Option<u64>)
    requires
        result_of_seen(seen, r1),
        result_of_seen(seen, r2),
    ensures
        r1 == r2,
{
    match (r1, r2) {
        (Option::Some(a), Option::Some(b)) => {
            if (a as int) < (b as int) {
                assert(seen[a as int]);
                assert(false);
            }
            if (b as int) < (a as int) {
                assert(seen[b as int]);
                assert(false);
            }
        },
        (Option::Some(a), Option::None) => {
            assert(seen[a as int]);
            assert(false);
        },
        (Option::None, Option::Some(b)) => {
            assert(seen[b as int]);
            assert(false);
        },
        (Option::None, Option::None) => {},
    }
}

/// The enumeration is a pure function of its arguments: any two completed
/// runs with the same arguments report identical statistics and the same
/// first unwitnessed step count, however much fuel each took.
pub proof fn lemma_run_deterministic(
    states: int,
    max_steps: int,
    use_h: bool,
    fuel1: nat,
    fuel2: nat,
    info1: (u64, u64, u64),
    res1: Option<u64>,
    info2: (u64, u64, u64),
    res2: Option<u64>,
)
    requires
        limited_post(states, max_steps, use_h, fuel1, info1, res1),
        limited_post(states, max_steps, use_h, fuel2, info2, res2),
    ensures
        info1 == info2,
        res1 == res2,
{
    let init = init_search(states, max_steps);
    if fuel1 <= fuel2 {
        lemma_iter_stable(init, max_steps, use_h, fuel1, fuel2);
    } else {
        lemma_iter_stable(init, max_steps, use_h, fuel2, fuel1);
    }
    let fin = final_state(states, max_steps, use_h, fuel1);
    assert(final_state(states, max_steps, use_h, fuel2) == fin);
    lemma_result_unique(fin.seen, res1, res2);
    assert(info1.0 == info2.0);
    assert(info1.1 == info2.1);
    assert(info1.2 == info2.2);
}

} // verus!
