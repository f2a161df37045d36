//! How a turn is planned: commands an operator types, routes to specialised
//! agents, and what a model answers.

pub mod commands;
pub mod max;
pub mod min;
pub mod plan;
pub mod routing;
pub mod streaming;

pub use max::MemoryHydrationSettings;
pub use min::EchoOrchestrator;
