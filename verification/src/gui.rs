//! The logic behind the loader window: what it shows and how it reacts.

pub mod view_model;
pub mod edit;
pub mod config;
pub mod worker;
pub mod state;
pub mod system_fonts;
