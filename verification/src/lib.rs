//! The verified core of an agent runtime: identities and memory scopes, the
//! durable-log rules, prompt assembly and its budgets, retention, and the
//! decisions a run makes around its provider calls.

pub mod identity;
pub mod json;
pub mod lists;
pub mod memory;
pub mod message;
pub mod orchestrator;
pub mod paths;
pub mod pretty;
pub mod prompt;
pub mod ranking;
pub mod retention;
pub mod runner;
pub mod state;
pub mod text;
