//! The state of the terminal interface and how keys change it.

pub mod app;
pub mod session;
