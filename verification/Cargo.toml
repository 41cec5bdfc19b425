[package]
name = "agent_hooks"
version = "0.1.0"
edition = "2021"
publish = false

[dependencies]
sha2 = "=0.10.9"
serde = { version = "=1.0.229", features = ["derive"] }
serde_json = { version = "=1.0.154", features = ["raw_value"] }
async-trait = "=0.1.92"
futures-util = "=0.3.34"
tokio = { version = "=1.54.1", features = ["rt", "macros", "time"] }
thiserror = "=1.0.69"
