//! Mathematical semantics of a machine: step-by-step simulation on a blank
//! tape, the refinement of an undefined transition cell into child machines,
//! and the forward-reachability closure behind the never-halts heuristic.
//! Every executable function of the engine is specified against these
//! definitions.

use vstd::prelude::*;
use crate::machine::{Cell, Direction, MachineModel, cell_at, cell_index, cell_wf, model_wf};

verus! {

// ---------------------------------------------------------------------------
// Simulation
// ---------------------------------------------------------------------------

/// A running machine instance: current state, head position, and the set of
/// tape positions holding a one. Positions are absolute indices into the
/// simulation window; a run with budget `max_steps` starts the head at
/// `max_steps + 1`, so it can move either way for the whole budget.
#[verifier::ext_equal]
pub ghost struct Config {
    pub state: int,
    pub head: int,
    pub tape: Set<int>,
}

/// Outcome of simulating within a budget.
pub ghost enum SimResult {
    /// The machine executed a halt transition at this 1-indexed step.
    Halted(int),
    /// The budget ran out without halting or hitting an undefined cell.
    StillRunning,
    /// An undefined cell for this (state, symbol) pair was consulted before
    /// halting or exhausting the budget.
    Undefined(int, bool),
}

/// The configuration a simulation with budget `max_steps` starts from.
pub open spec fn init_config(max_steps: int) -> Config {
    Config { state: 0, head: max_steps + 1, tape: Set::empty() }
}

/// One firing of a rule: write, move, change state.
pub open spec fn step_config(c: Config, next: u8, write: bool, dir: Direction) -> Config {
    Config {
        state: next as int,
        head: if dir is Right {
            c.head + 1
        } else {
            c.head - 1
        },
        tape: if write {
            c.tape.insert(c.head)
        } else {
            c.tape.remove(c.head)
        },
    }
}

/// Simulate from configuration `c`, `steps_done` steps already taken, until
/// the budget is spent, the machine halts, or an undefined cell is consulted.
pub open spec fn spec_sim(m: MachineModel, c: Config, steps_done: int, max_steps: int) -> SimResult
    decreases max_steps - steps_done,
{
    if steps_done >= max_steps {
        SimResult::StillRunning
    } else {
        let sym = c.tape.contains(c.head);
        match cell_at(m, c.state, sym) {
            Cell::Undefined => SimResult::Undefined(c.state, sym),
            Cell::Halt => SimResult::Halted(steps_done + 1),
            Cell::Rule { next, write, dir } => spec_sim(
                m,
                step_config(c, next, write, dir),
                steps_done + 1,
                max_steps,
            ),
        }
    }
}

/// Simulate a machine from the blank initial configuration.
pub open spec fn spec_run(m: MachineModel, max_steps: int) -> SimResult {
    spec_sim(m, init_config(max_steps), 0, max_steps)
}

/// A simulation only reports an undefined cell that really is undefined.
pub proof fn lemma_sim_undefined(
    m: MachineModel,
    c: Config,
    steps_done: int,
    max_steps: int,
    state: int,
    sym: bool,
)
    requires
        model_wf(m),
        0 <= c.state < m.max_states,
        spec_sim(m, c, steps_done, max_steps) == SimResult::Undefined(state, sym),
    ensures
        0 <= state < m.max_states,
        cell_at(m, state, sym) is Undefined,
    decreases max_steps - steps_done,
{
    if steps_done < max_steps {
        let s0 = c.tape.contains(c.head);
        match cell_at(m, c.state, s0) {
            Cell::Undefined => {},
            Cell::Halt => {},
            Cell::Rule { next, write, dir } => {
                assert(cell_wf(cell_at(m, c.state, s0), m.max_states));
                lemma_sim_undefined(
                    m,
                    step_config(c, next, write, dir),
                    steps_done + 1,
                    max_steps,
                    state,
                    sym,
                );
            },
        }
    }
}

// ---------------------------------------------------------------------------
// Refinement of an undefined cell
// ---------------------------------------------------------------------------

/// The child that assigns `Halt` to the cell at `ci`.
pub open spec fn halt_child(m: MachineModel, ci: int) -> MachineModel {
    MachineModel {
        max_states: m.max_states,
        nas: m.nas,
        cells: m.cells.update(ci, Cell::Halt),
        first: false,
    }
}

/// The high-water mark after introducing a rule that enters state `ns`:
/// exploring state `k + 1` is only permitted once state `k` has been reached.
pub open spec fn bumped_nas(m: MachineModel, ns: int) -> int {
    let grown = if ns + 1 >= m.nas {
        ns + 1
    } else {
        m.nas
    };
    if grown <= m.max_states - 1 {
        grown
    } else {
        m.max_states - 1
    }
}

/// The child that assigns the rule (enter `ns`, write `w`, move `d`) to the
/// cell at `ci`.
pub open spec fn rule_child(m: MachineModel, ci: int, ns: int, w: bool, d: Direction) -> MachineModel {
    MachineModel {
        max_states: m.max_states,
        nas: bumped_nas(m, ns),
        cells: m.cells.update(ci, Cell::Rule { next: ns as u8, write: w, dir: d }),
        first: false,
    }
}

/// All children that assign a rule writing `w` and moving `d`, one per
/// permitted target state `0 ..= nas`.
pub open spec fn dir_block(m: MachineModel, ci: int, w: bool, d: Direction) -> Seq<MachineModel> {
    Seq::new((m.nas + 1) as nat, |s: int| rule_child(m, ci, s, w, d))
}

/// All children that assign a rule writing `w`. The very first move of the
/// canonical root machine is fixed to `Right` by symmetry.
pub open spec fn write_block(m: MachineModel, ci: int, w: bool) -> Seq<MachineModel> {
    if m.first {
        dir_block(m, ci, w, Direction::Right)
    } else {
        dir_block(m, ci, w, Direction::Left) + dir_block(m, ci, w, Direction::Right)
    }
}

/// The full refinement of the undefined cell for (`state`, `sym`): the halt
/// child first, then every rule child, in the order the engine produces them.
pub open spec fn spec_children(m: MachineModel, state: int, sym: bool) -> Seq<MachineModel> {
    let ci = cell_index(state, sym);
    seq![halt_child(m, ci)] + write_block(m, ci, false) + write_block(m, ci, true)
}

/// A halting step is always within the budget that observed it.
pub proof fn lemma_sim_halt_bound(m: MachineModel, c: Config, steps_done: int, max_steps: int, k: int)
    requires
        spec_sim(m, c, steps_done, max_steps) == SimResult::Halted(k),
    ensures
        steps_done < k <= max_steps,
    decreases max_steps - steps_done,
{
    if steps_done < max_steps {
        let sym = c.tape.contains(c.head);
        match cell_at(m, c.state, sym) {
            Cell::Undefined => {},
            Cell::Halt => {},
            Cell::Rule { next, write, dir } => {
                lemma_sim_halt_bound(
                    m,
                    step_config(c, next, write, dir),
                    steps_done + 1,
                    max_steps,
                    k,
                );
            },
        }
    }
}

/// A conclusive simulation outcome persists under any larger budget:
/// simulation is deterministic, so a halt or an undefined-cell hit within
/// the budget does not depend on how much budget was left over.
pub proof fn lemma_sim_budget_monotone(
    m: MachineModel,
    c: Config,
    steps_done: int,
    max_steps: int,
    larger: int,
)
    requires
        max_steps <= larger,
        !(spec_sim(m, c, steps_done, max_steps) is StillRunning),
    ensures
        spec_sim(m, c, steps_done, larger) == spec_sim(m, c, steps_done, max_steps),
    decreases max_steps - steps_done,
{
    if steps_done < max_steps {
        let sym = c.tape.contains(c.head);
        match cell_at(m, c.state, sym) {
            Cell::Undefined => {},
            Cell::Halt => {},
            Cell::Rule { next, write, dir } => {
                lemma_sim_budget_monotone(
                    m,
                    step_config(c, next, write, dir),
                    steps_done + 1,
                    max_steps,
                    larger,
                );
            },
        }
    }
}

/// Simulation is translation-invariant: shifting the head and every written
/// cell by the same offset changes nothing about the outcome.
proof fn lemma_sim_shift(
    m: MachineModel,
    c1: Config,
    c2: Config,
    delta: int,
    steps_done: int,
    max_steps: int,
)
    requires
        c2.state == c1.state,
        c2.head == c1.head + delta,
        forall|p: int| #[trigger] c2.tape.contains(p + delta) <==> c1.tape.contains(p),
    ensures
        spec_sim(m, c2, steps_done, max_steps) == spec_sim(m, c1, steps_done, max_steps),
    decreases max_steps - steps_done,
{
    if steps_done < max_steps {
        assert(c2.tape.contains(c1.head + delta) <==> c1.tape.contains(c1.head));
        assert(c2.tape.contains(c2.head) == c1.tape.contains(c1.head));
        let sym = c1.tape.contains(c1.head);
        match cell_at(m, c1.state, sym) {
            Cell::Undefined => {},
            Cell::Halt => {},
            Cell::Rule { next, write, dir } => {
                let d1 = step_config(c1, next, write, dir);
                let d2 = step_config(c2, next, write, dir);
                assert forall|p: int| #[trigger] d2.tape.contains(p + delta) <==> d1.tape.contains(
                    p,
                ) by {
                    assert(c2.tape.contains(p + delta) <==> c1.tape.contains(p));
                }
                lemma_sim_shift(m, d1, d2, delta, steps_done + 1, max_steps);
            },
        }
    }
}

/// A machine that halts, or hits an undefined cell, within one budget does
/// the same at the same step under any larger budget: a witnessed halting
/// time can never be lost by growing the budget.
pub proof fn lemma_run_budget_monotone(m: MachineModel, max_steps: int, larger: int)
    requires
        max_steps <= larger,
        !(spec_run(m, max_steps) is StillRunning),
    ensures
        spec_run(m, larger) == spec_run(m, max_steps),
{
    lemma_sim_budget_monotone(m, init_config(max_steps), 0, max_steps, larger);
    lemma_sim_shift(
        m,
        init_config(max_steps),
        init_config(larger),
        larger - max_steps,
        0,
        larger,
    );
}

proof fn lemma_halt_child_wf(m: MachineModel, ci: int)
    requires
        model_wf(m),
        0 <= ci < m.cells.len(),
    ensures
        model_wf(halt_child(m, ci)),
{
    let c = halt_child(m, ci);
    assert forall|i: int| 0 <= i < c.cells.len() implies cell_wf(
        #[trigger] c.cells[i],
        c.max_states,
    ) by {
        if i != ci {
            assert(c.cells[i] == m.cells[i]);
        }
    }
}

proof fn lemma_rule_child_wf(m: MachineModel, ci: int, ns: int, w: bool, d: Direction)
    requires
        model_wf(m),
        0 <= ci < m.cells.len(),
        0 <= ns <= m.nas,
    ensures
        model_wf(rule_child(m, ci, ns, w, d)),
{
    let c = rule_child(m, ci, ns, w, d);
    assert(0 <= c.nas < c.max_states);
    assert forall|i: int| 0 <= i < c.cells.len() implies cell_wf(
        #[trigger] c.cells[i],
        c.max_states,
    ) by {
        if i == ci {
            assert(c.cells[i] == Cell::Rule { next: ns as u8, write: w, dir: d });
        } else {
            assert(c.cells[i] == m.cells[i]);
        }
    }
}

/// Every child of a refinement is itself a well-formed machine.
pub proof fn lemma_children_wf(m: MachineModel, state: int, sym: bool)
    requires
        model_wf(m),
        0 <= state < m.max_states,
    ensures
        forall|i: int|
            0 <= i < spec_children(m, state, sym).len() ==> model_wf(
                #[trigger] spec_children(m, state, sym)[i],
            ),
{
    let ci = cell_index(state, sym);
    let cs = spec_children(m, state, sym);
    let a = m.nas + 1;
    assert forall|i: int| 0 <= i < cs.len() implies model_wf(#[trigger] cs[i]) by {
        if i == 0 {
            assert(cs[i] == halt_child(m, ci));
            lemma_halt_child_wf(m, ci);
        } else {
            let j = i - 1;
            let wb0 = write_block(m, ci, false);
            let wb1 = write_block(m, ci, true);
            let (w, k) = if j < wb0.len() {
                (false, j)
            } else {
                (true, j - wb0.len())
            };
            let wb = write_block(m, ci, w);
            assert(cs[i] == wb[k]);
            if m.first {
                assert(wb[k] == rule_child(m, ci, k, w, Direction::Right));
                lemma_rule_child_wf(m, ci, k, w, Direction::Right);
            } else {
                if k < a {
                    assert(wb[k] == rule_child(m, ci, k, w, Direction::Left));
                    lemma_rule_child_wf(m, ci, k, w, Direction::Left);
                } else {
                    assert(wb[k] == rule_child(m, ci, k - a, w, Direction::Right));
                    lemma_rule_child_wf(m, ci, k - a, w, Direction::Right);
                }
            }
        }
    }
}

// ---------------------------------------------------------------------------
// Never-halts heuristic: forward reachability closure
// ---------------------------------------------------------------------------

/// Abstract reachability state: which machine states are reachable, whether
/// the halted marker was reached, which move directions any reachable
/// transition uses, and which symbols any reachable transition writes.
#[verifier::ext_equal]
pub ghost struct Closure {
    pub states: Set<int>,
    pub halted: bool,
    pub left: bool,
    pub right: bool,
    pub w0: bool,
    pub w1: bool,
}

/// The closure a machine's analysis starts from: only state 0 reachable.
pub open spec fn init_closure() -> Closure {
    Closure {
        states: Set::empty().insert(0),
        halted: false,
        left: false,
        right: false,
        w0: false,
        w1: false,
    }
}

/// Size of a closure: reachable states plus one for each of the halted
/// marker, the two directions and the two written symbols. Every continued
/// pass of the analysis grows it strictly, and it never exceeds
/// `max_states + 5`.
pub open spec fn closure_measure(cl: Closure) -> int {
    cl.states.len() + (if cl.halted {
        1int
    } else {
        0int
    }) + (if cl.left {
        1int
    } else {
        0int
    }) + (if cl.right {
        1int
    } else {
        0int
    }) + (if cl.w0 {
        1int
    } else {
        0int
    }) + (if cl.w1 {
        1int
    } else {
        0int
    })
}

/// Which symbols a reachable state may read: always the blank symbol; a
/// written symbol only once both move directions are in use, since a single
/// direction can never bring the head back to a previously written cell.
pub open spec fn readable(cl: Closure, v: bool) -> bool {
    if v {
        cl.left && cl.right && cl.w1
    } else {
        true
    }
}

/// What one pass over the reachable (state, symbol) pairs accumulates: the
/// states newly reached, whether the halted marker was reached, the grown
/// direction and written-symbol sets, and whether an undefined cell was hit
/// (which aborts the analysis: the machine might still halt once refined).
#[verifier::ext_equal]
pub ghost struct RoundAcc {
    pub new_states: Set<int>,
    pub new_halted: bool,
    pub left: bool,
    pub right: bool,
    pub w0: bool,
    pub w1: bool,
    pub undef: bool,
}

/// The accumulator a pass starts from: nothing new yet, direction and
/// written-symbol sets carried over from the closure so far.
pub open spec fn acc_init(cl: Closure) -> RoundAcc {
    RoundAcc {
        new_states: Set::empty(),
        new_halted: false,
        left: cl.left,
        right: cl.right,
        w0: cl.w0,
        w1: cl.w1,
        undef: false,
    }
}

/// Absorb one consulted cell into the accumulator.
pub open spec fn absorb(acc: RoundAcc, c: Cell) -> RoundAcc {
    match c {
        Cell::Undefined => RoundAcc { undef: true, ..acc },
        Cell::Halt => RoundAcc { new_halted: true, ..acc },
        Cell::Rule { next, write, dir } => RoundAcc {
            new_states: acc.new_states.insert(next as int),
            left: acc.left || dir is Left,
            right: acc.right || dir is Right,
            w0: acc.w0 || !write,
            w1: acc.w1 || write,
            ..acc
        },
    }
}

/// Process one machine state: if it is reachable, consult its cell for each
/// symbol readable at the start of the pass.
pub open spec fn process_state(m: MachineModel, cl: Closure, acc: RoundAcc, s: int) -> RoundAcc {
    if !cl.states.contains(s) {
        acc
    } else {
        let a1 = absorb(acc, cell_at(m, s, false));
        if readable(cl, true) {
            absorb(a1, cell_at(m, s, true))
        } else {
            a1
        }
    }
}

/// One pass over machine states `0 .. k`.
pub open spec fn scan(m: MachineModel, cl: Closure, k: nat) -> RoundAcc
    decreases k,
{
    if k == 0 {
        acc_init(cl)
    } else {
        process_state(m, cl, scan(m, cl, (k - 1) as nat), k - 1)
    }
}

/// One full pass over all machine states.
pub open spec fn round(m: MachineModel, cl: Closure) -> RoundAcc {
    scan(m, cl, m.max_states as nat)
}

/// A pass never forgets a direction or written symbol the closure already
/// had: the accumulator's flags only ever grow from the closure's.
pub proof fn lemma_scan_flags_monotone(m: MachineModel, cl: Closure, k: nat)
    ensures
        ({
            let a = scan(m, cl, k);
            &&& cl.left ==> a.left
            &&& cl.right ==> a.right
            &&& cl.w0 ==> a.w0
            &&& cl.w1 ==> a.w1
        }),
    decreases k,
{
    if k > 0 {
        lemma_scan_flags_monotone(m, cl, (k - 1) as nat);
    }
}

/// The pass found nothing beyond what the closure already knew: no state,
/// no halted marker, no move direction and no written symbol. Only then is
/// the closure a true fixpoint; stopping while any of these still grew
/// would skip the pass in which newly readable symbols expose further
/// transitions.
pub open spec fn subsumed(cl: Closure, acc: RoundAcc) -> bool {
    &&& acc.new_states.subset_of(cl.states)
    &&& (acc.new_halted ==> cl.halted)
    &&& acc.left == cl.left
    &&& acc.right == cl.right
    &&& acc.w0 == cl.w0
    &&& acc.w1 == cl.w1
}

/// Fold a pass's findings into the closure.
pub open spec fn apply_round(cl: Closure, acc: RoundAcc) -> Closure {
    Closure {
        states: cl.states.union(acc.new_states),
        halted: cl.halted || acc.new_halted,
        left: acc.left,
        right: acc.right,
        w0: acc.w0,
        w1: acc.w1,
    }
}

/// Iterate passes from closure `cl`. The analysis claims the machine never
/// halts exactly when a pass adds nothing new without having met an
/// undefined cell, and the halted marker was never reached. `fuel` bounds
/// the iteration for well-foundedness; one unit per pass beyond the first
/// suffices, since every continued pass strictly grows the closure.
pub open spec fn closure_from(m: MachineModel, cl: Closure, fuel: nat) -> bool
    decreases fuel,
{
    let acc = round(m, cl);
    if acc.undef {
        false
    } else if subsumed(cl, acc) {
        !cl.halted
    } else if fuel == 0 {
        false
    } else {
        closure_from(m, apply_round(cl, acc), (fuel - 1) as nat)
    }
}

/// The never-halts heuristic: the reachability closure's verdict from the
/// initial abstraction. The budget of `max_states + 5` passes is never
/// exhausted, since a continued pass strictly grows a closure bounded by
/// `max_states` states plus the halted marker, two directions and two
/// written symbols.
pub open spec fn spec_cannot_halt(m: MachineModel) -> bool {
    closure_from(m, init_closure(), (m.max_states + 5) as nat)
}

// ---------------------------------------------------------------------------
// The classification a single examination of a machine produces
// ---------------------------------------------------------------------------

/// What examining one machine yields.
pub ghost enum SpecOutcome {
    /// Simulation executed a halt transition at this 1-indexed step.
    Halted(int),
    /// Simulation spent the whole budget without halting.
    StillRunning,
    /// The heuristic proved the machine can never halt; it is not simulated.
    NeverHalts,
    /// Simulation consulted an undefined cell; the machine is replaced by
    /// these more specific children.
    Split(Seq<MachineModel>),
}

/// Examine one machine: heuristic first (when enabled), then simulation.
pub open spec fn spec_outcome(m: MachineModel, max_steps: int, use_heuristic: bool) -> SpecOutcome {
    if use_heuristic && spec_cannot_halt(m) {
        SpecOutcome::NeverHalts
    } else {
        match spec_run(m, max_steps) {
            SimResult::Halted(k) => SpecOutcome::Halted(k),
            SimResult::StillRunning => SpecOutcome::StillRunning,
            SimResult::Undefined(state, sym) => SpecOutcome::Split(spec_children(m, state, sym)),
        }
    }
}

} // verus!
