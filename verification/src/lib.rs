//! Verified core of the rIC3 hardware model checker: literals and cubes,
//! the clause store and watch lists of its SAT solver, unit propagation,
//! the decision heap, proof obligations, frames and their lemmas, and the
//! schedules of its bounded engines, and the checks of IC3's generalization.
pub mod lit;
pub mod heap;
pub mod vsids;
pub mod cdb;
pub mod value;
pub mod domain;
pub mod watch;
pub mod solver;
pub mod cube;
pub mod options;
pub mod args;
pub mod command;
pub mod mic;
pub mod frame;
pub mod frame_remove;
pub mod proofoblig;
pub mod model;
pub mod activity;
pub mod bmc;
pub mod imc;
pub mod engine;
pub mod kind;
pub mod random;
pub mod solver_clauses;
pub mod simplify;
pub mod gc;
pub mod subsume;
pub mod learnt;
pub mod prop;
pub mod ic3_step;
