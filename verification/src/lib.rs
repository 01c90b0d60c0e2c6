//! Permutation flow shop scheduling: problem instances, schedules and their
//! total flow time, and the search procedures that look for good schedules.

pub mod solver;
pub mod tui;
