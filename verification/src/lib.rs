//! Capacity-constrained stable matching between students and schools by
//! student-proposing deferred acceptance (the college-admissions form of
//! Gale-Shapley).
//!
//! The crate validates the three raw inputs, builds one [`school::School`]
//! record per school, runs the proposal-and-displacement work-list loop to
//! quiescence, and returns the resulting student-to-school assignment.
#![verifier::loop_isolation(false)]

pub mod engine;
pub mod school;
pub mod validate;

pub use engine::build_schools;
pub use engine::match_students_to_schools;
pub use engine::run_matching;
pub use school::Decision;
pub use school::School;
pub use validate::MatchError;
pub use validate::validate_inputs;
