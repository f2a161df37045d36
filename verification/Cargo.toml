[package]
name = "agentos_core"
version = "0.1.0"
edition = "2021"
publish = false

[dependencies]
async-trait = "0.1"
chrono = { version = "0.4", default-features = false, features = ["std", "clock"] }
futures-util = "0.3"
libc = "0.2"
rusqlite = { version = "*", features = ["bundled"] }
serde = { version = "1", features = ["derive"] }
serde_json = { version = "1", features = ["raw_value"] }
sqlite-vec = "*"
thiserror = "*"
tokio = { version = "1", features = ["fs", "rt", "macros", "sync", "time"] }
tokio-util = "0.7"
tracing = "0.1"
