[package]
name = "kode_ai_rs"
version = "0.1.0"
edition = "2021"
publish = false

[dependencies]
anyhow = "*"
base64 = "=0.23.1"
clap = { version = "*", features = ["derive"] }
octocrab = "=0.41.2"
pulldown-cmark = "=0.13.4"
rmcp = { version = "=3.5.1", features = ["transport-io"] }
serde = { version = "*", features = ["derive"] }
serde_json = "*"
tempfile = "*"
tokio = { version = "*", features = ["full"] }
tracing = "*"
tracing-subscriber = "*"
walkdir = "*"
