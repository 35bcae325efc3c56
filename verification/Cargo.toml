[package]
name = "rad"
version = "0.1.0"
edition = "2021"
publish = false

[dependencies]
anyhow = "=1.0.104"
bytes = "1"
futures = "0.3"
fxhash = "=0.2.1"
lsp-server = "=0.7.9"
lsp-types = "=0.94.1"
resolve-path = "=0.1.0"
serde = { version = "1", features = ["derive"] }
serde_json = { version = "=1.0.154", features = ["float_roundtrip"] }
tokio = { version = "=1.54.1", features = ["full"] }
tokio-util = { version = "0.7", features = ["codec"] }
tracing = "0.1"
tracing-subscriber = "0.3"
