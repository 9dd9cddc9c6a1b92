[package]
name = "artesian"
version = "0.5.9"
edition = "2021"
publish = false

[dependencies]
anyhow = "=1.0.104"
chrono = { version = "=0.4.45", default-features = false, features = ["std", "clock"] }
clap = { version = "=4.6.7", features = ["derive", "env"] }
fastembed = { version = "=5.17.4", default-features = false, features = ["hf-hub-rustls-tls", "ort-load-dynamic"] }
futures-util = "=0.3.34"
nix = { version = "=0.31.3", features = ["process", "signal"] }
qdrant-client = { version = "=1.20.0", default-features = false, features = ["serde"] }
rmcp = { version = "=3.8.0", features = ["server", "macros", "transport-io"] }
serde = { version = "=1.0.229", features = ["derive"] }
serde_json = "=1.0.154"
sha2 = "=0.10.9"
tokio = { version = "=1.54.1", features = ["full"] }
toml_edit = "=0.25.17"
tracing-subscriber = { version = "=0.3.23", features = ["env-filter"] }
