//! Single-machine examination: the never-halts heuristic, the refinement of
//! an undefined transition cell, and the bounded simulation loop. Each
//! executable function is proved equal to its specification in `semantics`.

use vstd::prelude::*;
use vstd::pervasive::VecAdditionalExecFns;
use vstd::set_lib::{lemma_int_range, lemma_len_subset, set_int_range};
use crate::machine::{Cell, Direction, Machine, MachineModel, cell_at, cell_index, cell_wf, model_wf};
use crate::semantics::{
    Closure, Config, RoundAcc, SimResult, SpecOutcome, absorb, acc_init, apply_round, bumped_nas,
    closure_from, closure_measure, dir_block, halt_child, init_closure, init_config,
    lemma_scan_flags_monotone, process_state, readable, round, rule_child, scan,
    spec_cannot_halt, spec_children, spec_outcome, spec_run, spec_sim, step_config, subsumed,
    write_block,
};
use crate::tape::{tape_get, tape_insert, tape_new, tape_remove, tape_set};

verus! {

/// The set of indices at which a boolean sequence holds `true`.
pub open spec fn bool_seq_set(s: Seq<bool>) -> Set<int> {
    Set::new(|i: int| 0 <= i < s.len() && s[i])
}

/// The models of a sequence of machines.
pub open spec fn views(s: Seq<Machine>) -> Seq<MachineModel> {
    s.map_values(|c: Machine| c@)
}

/// Result of examining one machine within a step budget.
pub enum ExecutionResult {
    /// The machine executed a halt transition at this 1-indexed step.
    Halted(u64),
    /// The budget ran out without halting and without hitting an undefined
    /// transition.
    StillRunning,
    /// The reachability heuristic claims that the machine can never halt;
    /// it was not simulated.
    NeverHalts,
    /// Simulation consulted an undefined transition cell; these more
    /// specific machines jointly cover all completions of that cell.
    Split(Vec<Machine>),
}

/// The executable result agrees with the specified one.
pub open spec fn result_matches(r: ExecutionResult, s: SpecOutcome) -> bool {
    match r {
        ExecutionResult::Halted(k) => s == SpecOutcome::Halted(k as int),
        ExecutionResult::StillRunning => s == SpecOutcome::StillRunning,
        ExecutionResult::NeverHalts => s == SpecOutcome::NeverHalts,
        ExecutionResult::Split(v) => s == SpecOutcome::Split(views(v@)),
    }
}

proof fn lemma_bool_seq_set_insert(s: Seq<bool>, i: int)
    requires
        0 <= i < s.len(),
    ensures
        bool_seq_set(s.update(i, true)) == bool_seq_set(s).insert(i),
{
    assert(bool_seq_set(s.update(i, true)) =~= bool_seq_set(s).insert(i));
}

/// The never-halts heuristic: the verdict of a forward reachability
/// closure over abstract configurations. Machines with a reachable
/// undefined cell are never claimed to be non-halting, since they might
/// halt once refined. The closure continues until a full pass adds nothing
/// new — no state, no halted marker, no move direction and no written
/// symbol — so a pass that widens the readable symbols is always followed
/// by another pass over the widened set. The widening rule itself (once
/// both directions are in use, any written symbol may be re-read) is
/// conservative prose of the design, not verified against the step
/// semantics.
pub fn cannot_halt(tm: &Machine) -> (r: bool)
    requires
        model_wf(tm@),
    ensures
        r == spec_cannot_halt(tm@),
{
    let n: usize = tm.max_states as usize;
    let mut reach: Vec<bool> = Vec::new();
    let mut fill: usize = 0;
    while fill < n
        invariant
            reach.len() == fill,
            fill <= n,
            forall|j: int| 0 <= j < fill ==> !reach@[j],
        decreases n - fill,
    {
        reach.push(false);
        fill += 1;
    }
    reach.set(0, true);
    let mut halted: bool = false;
    let mut left: bool = false;
    let mut right: bool = false;
    let mut w0: bool = false;
    let mut w1: bool = false;

    let ghost mut cl = init_closure();
    let ghost mut rounds: int = 0;
    proof {
        assert(bool_seq_set(reach@) =~= cl.states);
        lemma_int_range(0, n as int);
    }

    loop
        invariant
            model_wf(tm@),
            n == tm@.max_states,
            1 <= n,
            reach.len() == n,
            cl.states == bool_seq_set(reach@),
            cl.halted == halted,
            cl.left == left,
            cl.right == right,
            cl.w0 == w0,
            cl.w1 == w1,
            0 <= rounds,
            cl.states.finite(),
            cl.states.subset_of(set_int_range(0, n as int)),
            closure_measure(cl) >= rounds + 1,
            closure_from(tm@, cl, (n + 5 - rounds) as nat) == spec_cannot_halt(tm@),
        decreases n + 5 - rounds,
    {
        proof {
            lemma_int_range(0, n as int);
            lemma_len_subset(cl.states, set_int_range(0, n as int));
        }
        // Symbols readable during this pass, fixed before the pass begins,
        // and the direction and written-symbol flags the pass starts from.
        let read_one: bool = left && right && w1;
        assert(read_one == readable(cl, true));
        let start_left: bool = left;
        let start_right: bool = right;
        let start_w0: bool = w0;
        let start_w1: bool = w1;

        let mut new_reach: Vec<bool> = Vec::new();
        let mut nfill: usize = 0;
        while nfill < n
            invariant
                new_reach.len() == nfill,
                nfill <= n,
                forall|j: int| 0 <= j < nfill ==> !new_reach@[j],
            decreases n - nfill,
        {
            new_reach.push(false);
            nfill += 1;
        }
        let mut new_halted: bool = false;
        let mut undef: bool = false;
        proof {
            assert(bool_seq_set(new_reach@) =~= acc_init(cl).new_states);
        }

        let mut s: usize = 0;
        while s < n
            invariant
                model_wf(tm@),
                n == tm@.max_states,
                s <= n,
                reach.len() == n,
                new_reach.len() == n,
                cl.states == bool_seq_set(reach@),
                read_one == readable(cl, true),
                scan(tm@, cl, s as nat) == (RoundAcc {
                    new_states: bool_seq_set(new_reach@),
                    new_halted: new_halted,
                    left: left,
                    right: right,
                    w0: w0,
                    w1: w1,
                    undef: undef,
                }),
            decreases n - s,
        {
            let ghost acc_before = scan(tm@, cl, s as nat);
            if reach[s] {
                let c0 = tm.cell(s as u8, false);
                match c0 {
                    Cell::Undefined => {
                        undef = true;
                    },
                    Cell::Halt => {
                        new_halted = true;
                    },
                    Cell::Rule { next, write, dir } => {
                        proof {
                            assert(cell_wf(cell_at(tm@, s as int, false), tm@.max_states));
                            lemma_bool_seq_set_insert(new_reach@, next as int);
                        }
                        new_reach.set(next as usize, true);
                        match dir {
                            Direction::Left => {
                                left = true;
                            },
                            Direction::Right => {
                                right = true;
                            },
                        }
                        if write {
                            w1 = true;
                        } else {
                            w0 = true;
                        }
                    },
                }
                let ghost acc_mid = absorb(acc_before, cell_at(tm@, s as int, false));
                assert((RoundAcc {
                    new_states: bool_seq_set(new_reach@),
                    new_halted: new_halted,
                    left: left,
                    right: right,
                    w0: w0,
                    w1: w1,
                    undef: undef,
                }) == acc_mid);
                if read_one {
                    let c1 = tm.cell(s as u8, true);
                    match c1 {
                        Cell::Undefined => {
                            undef = true;
                        },
                        Cell::Halt => {
                            new_halted = true;
                        },
                        Cell::Rule { next, write, dir } => {
                            proof {
                                assert(cell_wf(cell_at(tm@, s as int, true), tm@.max_states));
                                lemma_bool_seq_set_insert(new_reach@, next as int);
                            }
                            new_reach.set(next as usize, true);
                            match dir {
                                Direction::Left => {
                                    left = true;
                                },
                                Direction::Right => {
                                    right = true;
                                },
                            }
                            if write {
                                w1 = true;
                            } else {
                                w0 = true;
                            }
                        },
                    }
                    assert((RoundAcc {
                        new_states: bool_seq_set(new_reach@),
                        new_halted: new_halted,
                        left: left,
                        right: right,
                        w0: w0,
                        w1: w1,
                        undef: undef,
                    }) == absorb(acc_mid, cell_at(tm@, s as int, true)));
                }
            }
            proof {
                assert(scan(tm@, cl, (s + 1) as nat) == process_state(
                    tm@,
                    cl,
                    scan(tm@, cl, s as nat),
                    s as int,
                ));
            }
            s += 1;
        }
        let ghost acc = round(tm@, cl);
        assert(acc == scan(tm@, cl, n as nat));

        if undef {
            // An undefined cell is reachable: the analysis cannot prove
            // anything; the machine might halt once that cell is refined.
            assert(!spec_cannot_halt(tm@));
            return false;
        }

        // Did the pass find anything beyond the closure so far? A new
        // state, the halted marker, a move direction or a written symbol
        // all count: stopping while any of them grew would skip the pass
        // in which newly readable symbols expose further transitions.
        let mut changed: bool = (new_halted && !halted) || left != start_left || right
            != start_right || w0 != start_w0 || w1 != start_w1;
        let mut i: usize = 0;
        while i < n
            invariant
                i <= n,
                reach.len() == n,
                new_reach.len() == n,
                changed == (((new_halted && !halted) || left != start_left || right
                    != start_right || w0 != start_w0 || w1 != start_w1) || exists|j: int|
                    0 <= j < i && new_reach@[j] && !reach@[j]),
            decreases n - i,
        {
            if new_reach[i] && !reach[i] {
                changed = true;
            }
            i += 1;
        }

        if !changed {
            // Fixpoint: nothing new was reached, so the closure is complete.
            proof {
                assert forall|t: int| acc.new_states.contains(t) implies cl.states.contains(
                    t,
                ) by {
                    assert(new_reach@[t]);
                }
                assert(acc.left == cl.left);
                assert(acc.right == cl.right);
                assert(acc.w0 == cl.w0);
                assert(acc.w1 == cl.w1);
                assert(subsumed(cl, acc));
            }
            return !halted;
        }

        // Fold the pass into the closure and go around again.
        proof {
            assert(!subsumed(cl, acc)) by {
                if subsumed(cl, acc) {
                    assert(forall|j: int|
                        0 <= j < n && new_reach@[j] ==> #[trigger] reach@[j]) by {
                        assert forall|j: int|
                            0 <= j < n && new_reach@[j] implies #[trigger] reach@[j] by {
                            assert(acc.new_states.contains(j));
                        }
                    }
                }
            }
        }
        let ghost old_cl = cl;
        let mut i: usize = 0;
        while i < n
            invariant
                i <= n,
                reach.len() == n,
                new_reach.len() == n,
                forall|j: int| i <= j < n ==> reach@[j] == old_cl.states.contains(j),
                forall|j: int|
                    0 <= j < i ==> reach@[j] == (old_cl.states.contains(j)
                        || bool_seq_set(new_reach@).contains(j)),
                bool_seq_set(new_reach@) == round(tm@, old_cl).new_states,
            decreases n - i,
        {
            let merged = reach[i] || new_reach[i];
            reach.set(i, merged);
            i += 1;
        }
        halted = halted || new_halted;
        proof {
            let new_cl = apply_round(old_cl, acc);
            assert(bool_seq_set(reach@) =~= new_cl.states) by {
                assert(old_cl.states.subset_of(set_int_range(0, n as int)));
                assert(forall|t: int|
                    #[trigger] acc.new_states.contains(t) ==> 0 <= t < n);
            }
            // The closure grew strictly: a new state, the marker, a move
            // direction, or a written symbol.
            let old_measure = closure_measure(old_cl);
            let new_measure = closure_measure(new_cl);
            assert(old_cl.states.subset_of(new_cl.states));
            assert(new_cl.states.subset_of(set_int_range(0, n as int)));
            lemma_int_range(0, n as int);
            lemma_len_subset(new_cl.states, set_int_range(0, n as int));
            lemma_len_subset(old_cl.states, new_cl.states);
            lemma_scan_flags_monotone(tm@, old_cl, n as nat);
            if !(acc.new_states.subset_of(old_cl.states)) {
                let w = choose|t: int|
                    acc.new_states.contains(t) && !old_cl.states.contains(t);
                old_cl.states.lemma_subset_not_in_lt(new_cl.states, w);
                assert(new_measure >= old_measure + 1);
            } else if acc.new_halted && !old_cl.halted {
                assert(new_measure >= old_measure + 1);
            } else {
                assert(acc.left != old_cl.left || acc.right != old_cl.right || acc.w0
                    != old_cl.w0 || acc.w1 != old_cl.w1);
                assert(new_measure >= old_measure + 1);
            }
            cl = new_cl;
            rounds = rounds + 1;
        }
    }
}

/// Copy a transition table.
fn clone_cells(v: &Vec<Cell>) -> (r: Vec<Cell>)
    ensures
        r@ == v@,
{
    let mut r: Vec<Cell> = Vec::new();
    let mut i: usize = 0;
    while i < v.len()
        invariant
            i <= v.len(),
            r@ == v@.take(i as int),
        decreases v.len() - i,
    {
        r.push(v[i]);
        proof {
            assert(r@ =~= v@.take(i + 1));
        }
        i += 1;
    }
    proof {
        assert(v@.take(v@.len() as int) =~= v@);
    }
    r
}

/// Push every rule child writing `w` and moving `d`, one per permitted
/// target state.
fn push_dir_block(rv: &mut Vec<Machine>, tm: &Machine, ci: usize, w: bool, d: Direction)
    requires
        model_wf(tm@),
        ci < tm@.cells.len(),
    ensures
        views(final(rv)@) == views(old(rv)@) + dir_block(tm@, ci as int, w, d),
        forall|i: int|
            old(rv)@.len() <= i < final(rv)@.len() ==> model_wf(#[trigger] views(final(rv)@)[i]),
{
    let ghost base = views(rv@);
    let mut ns: u8 = 0;
    proof {
        assert(views(rv@) =~= base + dir_block(tm@, ci as int, w, d).take(0));
    }
    loop
        invariant
            model_wf(tm@),
            ci < tm@.cells.len(),
            ns <= tm@.nas + 1,
            ns <= tm.next_available_state + 1,
            tm@.nas == tm.next_available_state as int,
            views(rv@) == base + dir_block(tm@, ci as int, w, d).take(ns as int),
            forall|i: int|
                base.len() <= i < views(rv@).len() ==> model_wf(#[trigger] views(rv@)[i]),
        ensures
            ns as int == tm@.nas + 1,
            views(rv@) == base + dir_block(tm@, ci as int, w, d).take(tm@.nas + 1),
            forall|i: int|
                base.len() <= i < views(rv@).len() ==> model_wf(#[trigger] views(rv@)[i]),
        decreases tm@.nas + 1 - ns,
    {
        if ns > tm.next_available_state {
            break ;
        }
        let grown: u8 = if ns + 1 >= tm.next_available_state {
            ns + 1
        } else {
            tm.next_available_state
        };
        let new_nas: u8 = if grown <= tm.max_states - 1 {
            grown
        } else {
            tm.max_states - 1
        };
        assert(new_nas as int == bumped_nas(tm@, ns as int));
        let mut t = clone_cells(&tm.transitions);
        t.set(ci, Cell::Rule { next: ns, write: w, dir: d });
        let child = Machine {
            max_states: tm.max_states,
            next_available_state: new_nas,
            transitions: t,
            first_machine_ever: false,
        };
        proof {
            assert(child@ =~= rule_child(tm@, ci as int, ns as int, w, d));
            assert(model_wf(child@));
        }
        let ghost rv_before = rv@;
        rv.push(child);
        proof {
            let blk = dir_block(tm@, ci as int, w, d);
            let k = ns as int;
            assert(blk.len() == tm@.nas + 1);
            assert(blk.take(k + 1).len() == k + 1);
            assert(views(rv_before) == base + blk.take(k));
            assert(views(rv_before).len() == rv_before.len());
            assert(rv_before.len() == base.len() + k);
            assert(blk[k] == rule_child(tm@, ci as int, k, w, d));
            assert(child@ == rule_child(tm@, ci as int, k, w, d));
            assert(rv@ == rv_before.push(child));
            assert forall|i: int| 0 <= i < rv@.len() implies views(rv@)[i] == (base + blk.take(
                k + 1,
            ))[i] by {
                assert(views(rv@)[i] == rv@[i]@);
                if i < rv_before.len() {
                    assert(rv@[i] == rv_before[i]);
                    assert(views(rv_before)[i] == rv_before[i]@);
                    assert(views(rv_before)[i] == (base + blk.take(k))[i]);
                    if i < base.len() {
                        assert((base + blk.take(k))[i] == base[i]);
                        assert((base + blk.take(k + 1))[i] == base[i]);
                    } else {
                        assert((base + blk.take(k))[i] == blk.take(k)[i - base.len()]);
                        assert((base + blk.take(k + 1))[i] == blk.take(k + 1)[i - base.len()]);
                        assert(blk.take(k)[i - base.len()] == blk[i - base.len()]);
                        assert(blk.take(k + 1)[i - base.len()] == blk[i - base.len()]);
                    }
                } else {
                    assert(i == base.len() + k);
                    assert(rv@[i] == child);
                    assert((base + blk.take(k + 1))[i] == blk.take(k + 1)[i - base.len()]);
                    assert(blk.take(k + 1)[k] == blk[k]);
                }
            }
            assert(views(rv@) =~= base + blk.take(k + 1));
        }
        ns += 1;
    }
    proof {
        assert(dir_block(tm@, ci as int, w, d).take(tm@.nas + 1) =~= dir_block(
            tm@,
            ci as int,
            w,
            d,
        ));
    }
}

/// Expand the undefined cell for (`state`, `sym`) into the full refinement:
/// one halt child, then one child per (write symbol, direction, target
/// state), directions restricted to `Right` for the canonical root machine.
fn refine(tm: &Machine, state: u8, sym: bool) -> (rv: Vec<Machine>)
    requires
        model_wf(tm@),
        (state as int) < tm@.max_states,
    ensures
        views(rv@) == spec_children(tm@, state as int, sym),
        forall|i: int| 0 <= i < rv@.len() ==> model_wf(#[trigger] views(rv@)[i]),
{
    let ci: usize = (state as usize) * 2 + (if sym {
        1
    } else {
        0
    });
    assert(ci as int == cell_index(state as int, sym));
    let mut rv: Vec<Machine> = Vec::new();

    let mut t = clone_cells(&tm.transitions);
    t.set(ci, Cell::Halt);
    let hc = Machine {
        max_states: tm.max_states,
        next_available_state: tm.next_available_state,
        transitions: t,
        first_machine_ever: false,
    };
    proof {
        assert(hc@ =~= halt_child(tm@, ci as int));
        assert(model_wf(hc@));
    }
    rv.push(hc);
    proof {
        assert(views(rv@) =~= seq![halt_child(tm@, ci as int)]);
    }

    if !tm.first_machine_ever {
        push_dir_block(&mut rv, tm, ci, false, Direction::Left);
    }
    push_dir_block(&mut rv, tm, ci, false, Direction::Right);
    proof {
        assert(views(rv@) =~= seq![halt_child(tm@, ci as int)] + write_block(
            tm@,
            ci as int,
            false,
        ));
    }
    if !tm.first_machine_ever {
        push_dir_block(&mut rv, tm, ci, true, Direction::Left);
    }
    push_dir_block(&mut rv, tm, ci, true, Direction::Right);
    proof {
        assert(views(rv@) =~= spec_children(tm@, state as int, sym));
    }
    rv
}

/// Examine one machine: run the heuristic first (when enabled), then
/// simulate for up to `max_steps` steps from a blank tape.
pub fn run_machine(tm: Machine, max_steps: u64, use_heuristic: bool) -> (r: ExecutionResult)
    requires
        model_wf(tm@),
        1 <= max_steps,
        2 * (max_steps as int) + 1 <= usize::MAX as int,
    ensures
        result_matches(r, spec_outcome(tm@, max_steps as int, use_heuristic)),
        r matches ExecutionResult::Halted(k) ==> 1 <= k <= max_steps,
        r matches ExecutionResult::Split(v) ==> forall|i: int|
            0 <= i < v@.len() ==> model_wf(#[trigger] views(v@)[i]),
{
    if use_heuristic {
        if cannot_halt(&tm) {
            return ExecutionResult::NeverHalts;
        }
    }

    let mut state: u8 = 0;
    let mut head: usize = (max_steps + 1) as usize;
    let mut tape = tape_new((max_steps as usize) * 2 + 1);
    let mut step: u64 = 0;
    proof {
        assert(Config { state: state as int, head: head as int, tape: tape_set(tape) }
            == init_config(max_steps as int));
    }
    while step < max_steps
        invariant
            model_wf(tm@),
            1 <= max_steps,
            2 * (max_steps as int) + 1 <= usize::MAX as int,
            use_heuristic ==> !spec_cannot_halt(tm@),
            step <= max_steps,
            (state as int) < tm@.max_states,
            max_steps + 1 - step <= head as int <= max_steps + 1 + step,
            spec_sim(
                tm@,
                Config { state: state as int, head: head as int, tape: tape_set(tape) },
                step as int,
                max_steps as int,
            ) == spec_run(tm@, max_steps as int),
        decreases max_steps - step,
    {
        let ghost c = Config { state: state as int, head: head as int, tape: tape_set(tape) };
        let sym = tape_get(&tape, head);
        match tm.cell(state, sym) {
            Cell::Undefined => {
                assert(spec_run(tm@, max_steps as int) == SimResult::Undefined(
                    state as int,
                    sym,
                ));
                let children = refine(&tm, state, sym);
                return ExecutionResult::Split(children);
            },
            Cell::Halt => {
                assert(spec_run(tm@, max_steps as int) == SimResult::Halted(step + 1));
                return ExecutionResult::Halted(step + 1);
            },
            Cell::Rule { next, write, dir } => {
                proof {
                    assert(cell_wf(cell_at(tm@, state as int, sym), tm@.max_states));
                }
                if write {
                    assert(head < usize::MAX);
                    tape_insert(&mut tape, head);
                } else {
                    tape_remove(&mut tape, head);
                }
                match dir {
                    Direction::Left => {
                        head = head - 1;
                    },
                    Direction::Right => {
                        head = head + 1;
                    },
                }
                state = next;
                step += 1;
                proof {
                    assert(Config {
                        state: state as int,
                        head: head as int,
                        tape: tape_set(tape),
                    } == step_config(c, next, write, dir));
                }
            },
        }
    }
    assert(spec_run(tm@, max_steps as int) == SimResult::StillRunning);
    ExecutionResult::StillRunning
}

/// Examine one machine with the never-halts heuristic enabled, as the
/// enumeration driver does.
pub fn execute_n_steps(tm: Machine, max_steps: u64) -> (r: ExecutionResult)
    requires
        model_wf(tm@),
        1 <= max_steps,
        2 * (max_steps as int) + 1 <= usize::MAX as int,
    ensures
        result_matches(r, spec_outcome(tm@, max_steps as int, true)),
        r matches ExecutionResult::Halted(k) ==> 1 <= k <= max_steps,
        r matches ExecutionResult::Split(v) ==> forall|i: int|
            0 <= i < v@.len() ==> model_wf(#[trigger] views(v@)[i]),
{
    run_machine(tm, max_steps, true)
}

} // verus!
