[package]
name = "dev_manager_mcp"
version = "0.1.0"
edition = "2021"
publish = false

[dependencies]
anyhow = "=1.0.104"
clap = { version = "=4.6.7", features = ["derive", "env"] }
rand = "=0.8.8"
rmcp = { version = "=0.8.5", features = ["client", "macros", "server", "transport-io", "transport-sse-client-reqwest", "transport-sse-server"] }
schemars = "=1.2.3"
serde = { version = "=1.0.229", features = ["derive"] }
serde_json = "=1.0.154"
tokio = { version = "=1.54.1", features = ["full"] }
