//! Scoped memory: who owns what, who may see it, and how the durable record of
//! it is kept, moved and bounded.

pub mod accounting;
pub mod authorize;
pub mod context;
pub mod hybrid;
pub mod hydration;
pub mod lease;
pub mod manager;
pub mod migrate;
pub mod migrate_child_sessions;
pub mod migrate_sessions;
pub mod migration;
pub mod migration_report;
pub mod pool;
pub mod query;
pub mod reflection;
pub mod reflection_run;
pub mod retention;
pub mod scope;
pub mod session_store;
pub mod settled;
pub mod sqlite;
pub mod sqlite_vec;
