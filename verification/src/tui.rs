pub mod adapters;
pub mod components;
pub mod helpers;
pub mod layout;
pub mod model;
pub mod state;
