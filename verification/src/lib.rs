use vstd::prelude::*;

pub mod auth;
pub mod commands;
pub mod config;
pub mod engine;
pub mod error;
pub mod logging;
pub mod repo;
pub mod resolve;
pub mod scanner;
pub mod scheduler;
pub mod state;
pub mod sync;
pub mod text;
pub mod tray;

verus! {

} // verus!
