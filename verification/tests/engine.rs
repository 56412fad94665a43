use lazy_beaver::{Cell, Direction, ExecutionResult, Machine};
use lazy_beaver::{cannot_halt, execute_n_steps, lazy_beaver, lazy_beaver_limited, steps_witnessed};

fn machine(max_states: u8, next_available_state: u8, cells: Vec<Cell>, first: bool) -> Machine {
    Machine {
        max_states,
        next_available_state,
        transitions: cells,
        first_machine_ever: first,
    }
}

#[test]
fn one_state_search_statistics() {
    // The root splits into 3 children (halt, and one right-moving rule per
    // write symbol); the halt child halts at step 1; the two rule children
    // are proven never-halting. Left-moving duplicates of the root's first
    // transition are never explored.
    let (info, result) = lazy_beaver_limited(1, 10);
    assert_eq!(info, (4, 1, 2));
    assert_eq!(result, Some(1));
}

#[test]
fn one_state_lazy_beaver() {
    assert_eq!(lazy_beaver(1), Some(1));
}

#[test]
fn two_state_search_finds_first_gap() {
    // Steps 1 through 6 are achievable by two-state machines and 7 is not,
    // so the first unwitnessed entry sits at index 6.
    let (info, result) = lazy_beaver_limited(2, 10);
    assert!(info.0 > 1);
    assert_eq!(result, Some(6));
}

#[test]
fn two_state_lazy_beaver() {
    assert_eq!(lazy_beaver(2), Some(6));
}

#[test]
fn identical_runs_report_identical_results() {
    let first = lazy_beaver_limited(2, 10);
    let second = lazy_beaver_limited(2, 10);
    assert_eq!(first, second);
}

#[test]
fn growing_the_budget_keeps_the_result() {
    let small = lazy_beaver_limited(2, 10);
    let large = lazy_beaver_limited(2, 50);
    assert_eq!(small.1, large.1);
}

#[test]
fn statistics_partition_examined_machines() {
    for (states, budget) in [(1u8, 10u64), (2, 10), (2, 50), (3, 6)] {
        let (info, _) = lazy_beaver_limited(states, budget);
        assert!(info.1 + info.2 <= info.0);
        assert!(info.0 > 1);
    }
}

#[test]
fn heuristic_preserves_witnesses_for_one_state() {
    let with = steps_witnessed(1, 10, true);
    let without = steps_witnessed(1, 10, false);
    assert_eq!(with, without);
}

#[test]
fn heuristic_preserves_witnesses_for_two_states() {
    let with = steps_witnessed(2, 10, true);
    let without = steps_witnessed(2, 10, false);
    assert_eq!(with, without);
}

#[test]
fn heuristic_preserves_witnesses_for_three_states() {
    let with = steps_witnessed(3, 6, true);
    let without = steps_witnessed(3, 6, false);
    assert_eq!(with, without);
}

#[test]
fn two_state_witnesses_without_heuristic() {
    // Two-state machines halt in exactly 1 through 6 steps and never in 7.
    let seen = steps_witnessed(2, 10, false);
    assert_eq!(
        seen,
        vec![true, true, true, true, true, true, false, false, false, false]
    );
}

#[test]
fn immediate_halt_machine_halts_at_step_one() {
    let m = machine(1, 0, vec![Cell::Halt, Cell::Undefined], false);
    let result = execute_n_steps(m, 10);
    assert!(matches!(result, ExecutionResult::Halted(1)));
}

#[test]
fn undefined_cell_splits_into_all_completions() {
    // A non-root one-state machine with everything undefined: one halt child
    // plus 2 write symbols x 2 directions x 1 target state.
    let m = machine(1, 0, vec![Cell::Undefined, Cell::Undefined], false);
    match execute_n_steps(m, 10) {
        ExecutionResult::Split(children) => assert_eq!(children.len(), 5),
        _ => panic!("expected a split"),
    }
}

#[test]
fn second_state_split_uses_both_known_states() {
    // The undefined cell is hit at step 2; children cover halt plus
    // 2 write symbols x 2 directions x 2 permitted target states.
    let m = machine(
        2,
        1,
        vec![
            Cell::Rule { next: 1, write: false, dir: Direction::Right },
            Cell::Undefined,
            Cell::Undefined,
            Cell::Undefined,
        ],
        false,
    );
    match execute_n_steps(m, 10) {
        ExecutionResult::Split(children) => assert_eq!(children.len(), 9),
        _ => panic!("expected a split"),
    }
}

#[test]
fn runner_that_never_returns_is_proven_nonhalting() {
    // Always move right in state 0: the head only ever sees blank cells, so
    // the machine can never reach its (undefined) one-symbol cell.
    let m = machine(
        1,
        0,
        vec![
            Cell::Rule { next: 0, write: false, dir: Direction::Right },
            Cell::Undefined,
        ],
        false,
    );
    assert!(cannot_halt(&m));
}

#[test]
fn reachable_halt_is_never_claimed_nonhalting() {
    let m = machine(1, 0, vec![Cell::Halt, Cell::Undefined], false);
    assert!(!cannot_halt(&m));
}

#[test]
fn reachable_undefined_cell_blocks_the_claim() {
    // State 1 is reached on a blank cell and has no rule there yet: the
    // machine might halt once that cell is refined, so nothing is claimed.
    let m = machine(
        2,
        1,
        vec![
            Cell::Rule { next: 1, write: false, dir: Direction::Right },
            Cell::Undefined,
            Cell::Undefined,
            Cell::Undefined,
        ],
        false,
    );
    assert!(!cannot_halt(&m));
}

#[test]
fn widened_direction_set_forces_another_pass() {
    // This machine halts in 3 steps: write one, move right, come back and
    // read the one. The pass that discovers the second move direction adds
    // no new state, but the closure keeps going, re-reads with the written
    // symbol now readable, meets the halt cell, and claims nothing.
    let m = machine(
        2,
        1,
        vec![
            Cell::Rule { next: 1, write: true, dir: Direction::Right },
            Cell::Halt,
            Cell::Rule { next: 0, write: true, dir: Direction::Left },
            Cell::Undefined,
        ],
        false,
    );
    assert!(!cannot_halt(&m));
    // So the search keeps its three-step halting time with the heuristic
    // on as well as off.
    let without = steps_witnessed(2, 3, false);
    let with = steps_witnessed(2, 3, true);
    assert!(without[2]);
    assert!(with[2]);
}
