pub mod input;
pub mod matrix;
