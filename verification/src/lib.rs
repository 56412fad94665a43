//! Enumeration engine for the Lazy Beaver problem: the smallest number of
//! steps not achieved as the halting time of any n-state, 2-symbol Turing
//! machine started on a blank tape, within a configurable step budget.
//!
//! `machine` holds the transition-table model, `tape` the bit-set tape,
//! `semantics` the mathematical meaning of simulation, refinement and the
//! never-halts heuristic, `stepper` the verified single-machine examination,
//! `search` the abstract search the driver is proved against, `driver` the
//! enumeration itself, and `laws` the global properties of a run.

pub mod driver;
pub mod laws;
pub mod machine;
pub mod search;
pub mod semantics;
pub mod stepper;
pub mod tape;

pub use driver::{Info, lazy_beaver, lazy_beaver_limited, steps_witnessed};
pub use machine::{Cell, Direction, Machine};
pub use stepper::{ExecutionResult, cannot_halt, execute_n_steps};
