pub mod commands;
pub mod runtime;
pub mod services;
pub mod state;
