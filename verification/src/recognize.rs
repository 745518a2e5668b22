//! The stages of recognition, and the engine that runs them in order.

pub mod assist_location;
pub mod engine;
pub mod fill;
pub mod location;
