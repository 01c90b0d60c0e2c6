pub mod algorithm;
pub mod evaluator;
pub mod helpers;
pub mod population;
pub mod problem;
pub mod schedule;
pub mod solution;
pub mod text;
