//! Representation of an abstract Turing machine: a transition table over
//! (state, symbol) pairs, together with the bookkeeping used by the
//! enumeration's symmetry pruning.

use vstd::prelude::*;

verus! {

/// Direction the head moves after a transition fires.
#[derive(Clone, Copy, PartialEq, Eq, Structural, Debug)]
pub enum Direction {
    Left,
    Right,
}

/// One cell of the transition table: what the machine does when it is in a
/// given state and reads a given symbol.
#[derive(Clone, Copy, PartialEq, Eq, Structural, Debug)]
pub enum Cell {
    /// No rule has been assigned yet; the machine is not fully specified here.
    Undefined,
    /// Executing this transition halts the machine.
    Halt,
    /// Write `write` under the head, move the head one cell in `dir`, and
    /// enter state `next`.
    Rule { next: u8, write: bool, dir: Direction },
}

/// A machine descriptor: the transition table of an n-state, 2-symbol
/// machine, plus the high-water mark of states introduced so far and the
/// flag marking the canonical root machine of a search.
pub struct Machine {
    /// Number of states `n`, fixed for a whole search.
    pub max_states: u8,
    /// Highest state index that refinement may introduce next; newly
    /// introduced states are always numbered in the order first reached.
    pub next_available_state: u8,
    /// Row-major table: the cell for (state `s`, symbol `v`) is at index
    /// `2*s + v`. Length is always `2 * max_states`.
    pub transitions: Vec<Cell>,
    /// True only for the single root machine of a search; its first move can
    /// be fixed to `Right` without loss of generality.
    pub first_machine_ever: bool,
}

/// Mathematical image of a `Machine`, used by all specifications.
#[verifier::ext_equal]
pub ghost struct MachineModel {
    pub max_states: int,
    pub nas: int,
    pub cells: Seq<Cell>,
    pub first: bool,
}

impl View for Machine {
    type V = MachineModel;

    open spec fn view(&self) -> MachineModel {
        MachineModel {
            max_states: self.max_states as int,
            nas: self.next_available_state as int,
            cells: self.transitions@,
            first: self.first_machine_ever,
        }
    }
}

/// A table cell mentions only states below `max_states`.
pub open spec fn cell_wf(c: Cell, max_states: int) -> bool {
    match c {
        Cell::Rule { next, write, dir } => (next as int) < max_states,
        _ => true,
    }
}

/// Well-formedness of a machine model: at least one state, a table of the
/// right size whose rules stay inside the state space, and a high-water mark
/// below the state count.
pub open spec fn model_wf(m: MachineModel) -> bool {
    &&& 1 <= m.max_states <= u8::MAX
    &&& m.cells.len() == 2 * m.max_states
    &&& 0 <= m.nas < m.max_states
    &&& forall|i: int| 0 <= i < m.cells.len() ==> cell_wf(#[trigger] m.cells[i], m.max_states)
}

/// Index of the table cell consulted in state `state` when reading `sym`.
pub open spec fn cell_index(state: int, sym: bool) -> int {
    2 * state + if sym {
        1int
    } else {
        0int
    }
}

/// The table cell consulted in state `state` when reading `sym`.
pub open spec fn cell_at(m: MachineModel, state: int, sym: bool) -> Cell {
    m.cells[cell_index(state, sym)]
}

impl Machine {
    /// Look up the transition cell for (state, symbol).
    pub fn cell(&self, state: u8, sym: bool) -> (c: Cell)
        requires
            model_wf(self@),
            (state as int) < self@.max_states,
        ensures
            c == cell_at(self@, state as int, sym),
    {
        let idx: usize = (state as usize) * 2 + (if sym {
            1
        } else {
            0
        });
        self.transitions[idx]
    }
}

} // verus!
