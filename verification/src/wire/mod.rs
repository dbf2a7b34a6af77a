//! Wire DTOs exchanged with the battle server as JSON.
//!
//! The JSON encoding itself lives with the program around this library; here the
//! messages are plain Rust values that the bot logic reads and builds.

pub mod action;
pub mod event;
pub mod protocol;
pub mod state;
