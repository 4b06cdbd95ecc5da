[package]
name = "cargo_http_registry"
version = "0.1.0"
edition = "2021"
publish = false

[dependencies]
sha2 = "=0.11.0"
serde = { version = "*", features = ["derive"] }
serde_json = "*"
anyhow = "*"
bytes = "*"
http = "*"
structopt = "=0.3.26"
tokio = { version = "=1.53.2", features = ["full"] }
tracing = "*"
tracing-subscriber = "*"
warp = { version = "=0.4.3", features = ["server"] }
