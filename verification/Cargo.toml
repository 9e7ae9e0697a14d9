[package]
name = "locus"
version = "0.1.0"
edition = "2021"
publish = false

[dependencies]
anyhow = "=1.0.104"
axum = "=0.7.9"
blake3 = "=1.8.7"
clap = { version = "=4.6.7", features = ["derive"] }
dirs = "=5.0.1"
fastembed = { version = "5", default-features = false, features = ["ort-load-dynamic", "hf-hub-rustls-tls"] }
globset = "=0.4.21"
heed = "=0.20.5"
notify = "=6.1.1"
notify-debouncer-mini = "=0.4.1"
petgraph = "=0.6.5"
rand = "=0.8.8"
reqwest = { version = "=0.12.28", default-features = false, features = ["blocking", "json", "rustls-tls"] }
rmcp = { version = "=0.8.5", features = ["server", "transport-io"] }
roaring = "=0.10.12"
schemars = "=1.2.3"
serde = { version = "=1.0.229", features = ["derive"] }
serde_json = "=1.0.154"
serde_yaml = "=0.9.34"
tokio = { version = "=1.54.1", features = ["full"] }
toml = "=0.8.23"
tracing = "=0.1.44"
tracing-subscriber = { version = "=0.3.23", features = ["env-filter"] }
tree-sitter = "=0.24.7"
tree-sitter-python = "=0.23.6"
tree-sitter-rust = "=0.23.3"
tree-sitter-typescript = "=0.23.2"
usearch = { version = "=2.26.6", default-features = false }

[dev-dependencies]
tempfile = "=3.27.0"
