pub mod cycles;
pub mod genetic;
pub mod greedy;
pub mod operators;
pub mod selectors;
