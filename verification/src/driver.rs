//! The enumeration driver: a depth-first search over machine refinements,
//! proved equal to the abstract search of `search`, and the budget-escalation
//! wrapper built on it.

use vstd::prelude::*;
use vstd::pervasive::unreached;
use vstd::pervasive::VecAdditionalExecFns;
use crate::machine::{Cell, Machine, model_wf};
use crate::search::{
    init_search, lemma_children_pot, lemma_iter_unfold_end, lemma_pot_append, lemma_pot_nonneg,
    lemma_weight_pos, limited_post, m_weight, result_of_seen, root_model, sat64, search_done,
    search_iter, search_step, stack_pot, witnessed_post,
};
use crate::semantics::{
    SimResult, SpecOutcome, init_config, lemma_sim_undefined, spec_children, spec_outcome,
    spec_run,
};
use crate::stepper::{ExecutionResult, run_machine, views};

verus! {

/// Statistics of one enumeration run: machines examined, machines that
/// halted, and machines proven to never halt.
pub type Info = (u64, u64, u64);

/// Add one to a counter, saturating at `u64::MAX`.
fn inc_sat(x: u64) -> (r: u64)
    ensures
        r as int == sat64(x as int + 1),
{
    if x < u64::MAX {
        x + 1
    } else {
        x
    }
}

/// The 0-based index of the first `false` entry, if any.
fn first_unseen(v: &Vec<bool>) -> (r: Option<u64>)
    ensures
        result_of_seen(v@, r),
{
    let mut i: usize = 0;
    while i < v.len()
        invariant
            i <= v.len(),
            forall|j: int| 0 <= j < i ==> v@[j],
        decreases v.len() - i,
    {
        if !v[i] {
            return Some(i as u64);
        }
        i += 1;
    }
    None
}

/// The root machine of a search: an all-undefined table.
fn make_root(states: u8) -> (r: Machine)
    requires
        1 <= states,
    ensures
        r@ == root_model(states as int),
        model_wf(r@),
{
    let n2: usize = (states as usize) * 2;
    let mut t: Vec<Cell> = Vec::new();
    let mut i: usize = 0;
    while i < n2
        invariant
            t.len() == i,
            i <= n2,
            forall|j: int| 0 <= j < i ==> t@[j] == Cell::Undefined,
        decreases n2 - i,
    {
        t.push(Cell::Undefined);
        i += 1;
    }
    let nas: u8 = if states - 1 <= 1 {
        states - 1
    } else {
        1
    };
    let r = Machine {
        max_states: states,
        next_available_state: nas,
        transitions: t,
        first_machine_ever: true,
    };
    proof {
        assert(r@ =~= root_model(states as int));
    }
    r
}

/// One full enumeration run: returns the statistics, the first unwitnessed
/// step count, and the witnessed array itself.
fn enumerate(states: u8, max_steps: u64, use_heuristic: bool) -> (r: (Info, Option<u64>, Vec<
    bool,
>))
    requires
        1 <= states,
        1 <= max_steps,
        2 * (max_steps as int) + 1 <= usize::MAX as int,
    ensures
        exists|fuel: nat|
            #[trigger] limited_post(
                states as int,
                max_steps as int,
                use_heuristic,
                fuel,
                r.0,
                r.1,
            ),
        exists|fuel: nat|
            #[trigger] witnessed_post(states as int, max_steps as int, use_heuristic, fuel, r.2@),
{
    let root = make_root(states);
    let mut machines: Vec<Machine> = Vec::new();
    machines.push(root);

    let ms_us: usize = max_steps as usize;
    let mut steps_seen: Vec<bool> = Vec::new();
    let mut fill: usize = 0;
    while fill < ms_us
        invariant
            steps_seen.len() == fill,
            fill <= ms_us,
            forall|j: int| 0 <= j < fill ==> !steps_seen@[j],
        decreases ms_us - fill,
    {
        steps_seen.push(false);
        fill += 1;
    }

    let mut seen_cnt: u64 = 0;
    let mut halted_cnt: u64 = 0;
    let mut nh_cnt: u64 = 0;

    let ghost init = init_search(states as int, max_steps as int);
    let ghost mut ss = init;
    let ghost mut pops: nat = 0;
    proof {
        assert(views(machines@) =~= init.stack);
        assert(steps_seen@ =~= init.seen);
    }

    while machines.len() > 0
        invariant
            1 <= states,
            1 <= max_steps,
            2 * (max_steps as int) + 1 <= usize::MAX as int,
            ss == search_iter(
                init_search(states as int, max_steps as int),
                max_steps as int,
                use_heuristic,
                pops,
            ),
            views(machines@) == ss.stack,
            machines@.len() == ss.stack.len(),
            steps_seen@ == ss.seen,
            steps_seen.len() == max_steps,
            seen_cnt as int == sat64(ss.examined),
            halted_cnt as int == sat64(ss.halted),
            nh_cnt as int == sat64(ss.neverhalt),
            0 <= ss.examined,
            0 <= ss.halted,
            0 <= ss.neverhalt,
            forall|i: int| 0 <= i < ss.stack.len() ==> model_wf(#[trigger] ss.stack[i]),
        decreases stack_pot(ss.stack),
    {
        let ghost stack0 = ss.stack;
        let ghost pot0 = stack_pot(stack0);
        proof {
            lemma_pot_nonneg(stack0.drop_last());
            lemma_weight_pos(stack0.last());
            assert(pot0 == stack_pot(stack0.drop_last()) + m_weight(stack0.last()));
        }
        let ghost mv0 = machines@;
        let tm_opt = machines.pop();
        let tm = match tm_opt {
            Some(t) => t,
            None => unreached(),
        };
        let ghost tmv = tm@;
        proof {
            assert(machines@ =~= mv0.drop_last());
            assert(views(machines@) =~= views(mv0).drop_last());
            assert(tmv == views(mv0).last());
            assert(model_wf(tmv));
        }
        let ghost stepped = search_step(ss, max_steps as int, use_heuristic);
        let res = run_machine(tm, max_steps, use_heuristic);
        let ghost outc = spec_outcome(tmv, max_steps as int, use_heuristic);
        match res {
            ExecutionResult::StillRunning => {
                proof {
                    assert(stepped.stack == stack0.drop_last());
                    assert(stack_pot(stepped.stack) < pot0);
                    assert forall|i: int| 0 <= i < stepped.stack.len() implies model_wf(
                        #[trigger] stepped.stack[i],
                    ) by {
                        assert(stepped.stack[i] == stack0[i]);
                    }
                }
            },
            ExecutionResult::Halted(k) => {
                proof {
                    assert(outc == SpecOutcome::Halted(k as int));
                    assert(1 <= k as int <= ss.seen.len());
                }
                steps_seen.set((k - 1) as usize, true);
                halted_cnt = inc_sat(halted_cnt);
                proof {
                    assert(steps_seen@ == ss.seen.update(k as int - 1, true));
                    assert(stepped.seen == ss.seen.update(k as int - 1, true));
                    assert(stack_pot(stepped.stack) < pot0);
                    assert forall|i: int| 0 <= i < stepped.stack.len() implies model_wf(
                        #[trigger] stepped.stack[i],
                    ) by {
                        assert(stepped.stack[i] == stack0[i]);
                    }
                }
            },
            ExecutionResult::NeverHalts => {
                nh_cnt = inc_sat(nh_cnt);
                proof {
                    assert(stack_pot(stepped.stack) < pot0);
                    assert forall|i: int| 0 <= i < stepped.stack.len() implies model_wf(
                        #[trigger] stepped.stack[i],
                    ) by {
                        assert(stepped.stack[i] == stack0[i]);
                    }
                }
            },
            ExecutionResult::Split(mut ch) => {
                let ghost chv = views(ch@);
                proof {
                    assert(outc == SpecOutcome::Split(chv));
                    match spec_run(tmv, max_steps as int) {
                        SimResult::Undefined(st, sy) => {
                            lemma_sim_undefined(
                                tmv,
                                init_config(max_steps as int),
                                0,
                                max_steps as int,
                                st,
                                sy,
                            );
                            lemma_children_pot(tmv, st, sy);
                            assert(chv == spec_children(tmv, st, sy));
                            assert(stack_pot(chv) < m_weight(tmv));
                        },
                        SimResult::Halted(_) => {
                            assert(false);
                        },
                        SimResult::StillRunning => {
                            assert(false);
                        },
                    }
                }
                let ghost rv0 = machines@;
                let ghost chseq = ch@;
                machines.append(&mut ch);
                proof {
                    assert(machines@ == rv0 + chseq);
                    assert(views(rv0 + chseq) =~= views(rv0) + chv);
                    assert(stepped.stack == stack0.drop_last() + chv);
                    lemma_pot_append(stack0.drop_last(), chv);
                    assert(stack_pot(stepped.stack) < pot0);
                    lemma_pot_nonneg(chv);
                    assert forall|i: int| 0 <= i < stepped.stack.len() implies model_wf(
                        #[trigger] stepped.stack[i],
                    ) by {
                        if i < stack0.drop_last().len() {
                            assert(stepped.stack[i] == stack0[i]);
                        } else {
                            assert(stepped.stack[i] == chv[i - stack0.drop_last().len()]);
                        }
                    }
                }
            },
        }
        seen_cnt = inc_sat(seen_cnt);
        proof {
            assert(spec_outcome(ss.stack.last(), max_steps as int, use_heuristic) == outc);
            lemma_iter_unfold_end(
                init_search(states as int, max_steps as int),
                max_steps as int,
                use_heuristic,
                pops,
            );
            ss = stepped;
            pops = pops + 1;
        }
    }

    proof {
        assert(ss.stack.len() == 0);
        assert(search_done(ss));
    }
    let res = first_unseen(&steps_seen);
    let info = (seen_cnt, halted_cnt, nh_cnt);
    proof {
        assert(limited_post(states as int, max_steps as int, use_heuristic, pops, info, res));
        assert(witnessed_post(states as int, max_steps as int, use_heuristic, pops, steps_seen@));
    }
    let out = (info, res, steps_seen);
    proof {
        assert(out.0 == info);
        assert(out.1 == res);
        assert(witnessed_post(states as int, max_steps as int, use_heuristic, pops, out.2@));
        assert(exists|fuel: nat|
            #[trigger] limited_post(
                states as int,
                max_steps as int,
                use_heuristic,
                fuel,
                out.0,
                out.1,
            ));
        assert(exists|fuel: nat|
            #[trigger] witnessed_post(states as int, max_steps as int, use_heuristic, fuel, out.2@));
    }
    out
}

/// Enumerate all distinguishable `states`-state machines up to the step
/// budget and report the statistics triple together with the first step
/// count within the budget at which no examined machine halted (0-based:
/// `Some(k)` means every count `1 ..= k` was witnessed and `k + 1` was not),
/// or `None` when every count in the budget was witnessed.
pub fn lazy_beaver_limited(states: u8, max_steps: u64) -> (r: (Info, Option<u64>))
    requires
        1 <= states,
        1 <= max_steps,
        2 * (max_steps as int) + 1 <= usize::MAX as int,
    ensures
        exists|fuel: nat|
            #[trigger] limited_post(states as int, max_steps as int, true, fuel, r.0, r.1),
{
    let out = enumerate(states, max_steps, true);
    let r = (out.0, out.1);
    proof {
        let fuel = choose|fuel: nat|
            #[trigger] limited_post(states as int, max_steps as int, true, fuel, out.0, out.1);
        assert(limited_post(states as int, max_steps as int, true, fuel, r.0, r.1));
    }
    r
}

/// The witnessed-halting-times array of one enumeration run: entry `k - 1`
/// is true exactly when some examined machine halted at step `k`. With the
/// heuristic disabled every machine is actually simulated.
pub fn steps_witnessed(states: u8, max_steps: u64, use_heuristic: bool) -> (seen: Vec<bool>)
    requires
        1 <= states,
        1 <= max_steps,
        2 * (max_steps as int) + 1 <= usize::MAX as int,
    ensures
        exists|fuel: nat|
            #[trigger] witnessed_post(states as int, max_steps as int, use_heuristic, fuel, seen@),
{
    let out = enumerate(states, max_steps, use_heuristic);
    out.2
}

/// Escalate the step budget by decimal orders of magnitude until the
/// enumeration names a first unachieved step count: the Lazy Beaver value
/// in this library's 0-based convention. Budgets stop growing at the
/// largest simulable one, so the escalation is finite; `None` reports that
/// even that budget left every step count witnessed, which no feasible run
/// ever reaches.
pub fn lazy_beaver(states: u8) -> (r: Option<u64>)
    requires
        1 <= states,
    ensures
        r matches Some(k) ==> exists|ms: u64, fuel: nat, info: Info|
            1 <= ms && #[trigger] limited_post(states as int, ms as int, true, fuel, info, Some(k)),
        r is None ==> exists|fuel: nat, info: Info|
            #[trigger] limited_post(
                states as int,
                ((usize::MAX as u64 - 1) / 2) as int,
                true,
                fuel,
                info,
                None::<u64>,
            ),
{
    let cap: u64 = (usize::MAX as u64 - 1) / 2;
    proof {
        assert((usize::MAX as u64) as int == usize::MAX as int);
        assert(2 * (cap as int) + 1 <= usize::MAX as int);
    }
    let mut ms: u64 = 1;
    loop
        invariant
            1 <= states,
            1 <= ms <= cap,
            cap == (usize::MAX as u64 - 1) / 2,
            2 * (cap as int) + 1 <= usize::MAX as int,
        decreases cap - ms,
    {
        let out = lazy_beaver_limited(states, ms);
        let info = out.0;
        let res = out.1;
        match res {
            Some(k) => {
                proof {
                    let fuel = choose|fuel: nat|
                        #[trigger] limited_post(states as int, ms as int, true, fuel, out.0, out.1);
                    assert(limited_post(states as int, ms as int, true, fuel, info, Some(k)));
                    assert(exists|msx: u64, fuelx: nat, infox: Info|
                        1 <= msx && #[trigger] limited_post(
                            states as int,
                            msx as int,
                            true,
                            fuelx,
                            infox,
                            Some(k),
                        ));
                }
                return Some(k);
            },
            None => {},
        }
        if ms == cap {
            proof {
                let fuel = choose|fuel: nat|
                    #[trigger] limited_post(states as int, ms as int, true, fuel, out.0, out.1);
                assert(limited_post(states as int, cap as int, true, fuel, info, None::<u64>));
                assert(exists|fuelx: nat, infox: Info|
                    #[trigger] limited_post(
                        states as int,
                        ((usize::MAX as u64 - 1) / 2) as int,
                        true,
                        fuelx,
                        infox,
                        None::<u64>,
                    ));
            }
            return None;
        }
        ms = if ms <= cap / 10 {
            ms * 10
        } else {
            cap
        };
    }
}

} // verus!
