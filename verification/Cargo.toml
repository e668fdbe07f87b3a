[package]
name = "kb-mcp"
version = "0.1.0"
edition = "2021"
publish = false

[dependencies]
anyhow = "1"
chrono = { version = "=0.4.45", features = ["serde"] }
dirs = "=7.0.0"
globset = "=0.4.21"
rusqlite = { version = "=0.41.1", features = ["bundled"] }
serde = { version = "1", features = ["derive"] }
serde_json = "=1.0.154"
serde_yaml_bw = "=2.5.8"
sha2 = "=0.10.9"
shellexpand = "=3.1.2"
toml = "=1.1.8"
tracing = "0.1"
