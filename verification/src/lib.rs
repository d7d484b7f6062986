//! Language-aware source line statistics: counts code, blank and comment
//! lines per file, using per-extension comment token rules, with a cache,
//! a token-rule configuration loader and a scheduling state machine.

pub mod cache;
pub mod config;
pub mod parser;
pub mod scheduler;
pub mod text;
