pub mod event;
pub mod model;
pub mod screen;
