[package]
name = "hoover_search"
version = "0.1.0"
edition = "2021"
publish = false

[dependencies]
anyhow = "=1.0.104"
axum = "*"
base64 = "=0.22.1"
bytes = "=1.12.1"
ciborium = "=0.2.2"
clickhouse = "=0.15.3"
format-sql-query = "=0.4.0"
futures = "0.3"
html5ever = "=0.40.1"
minio = "*"
reqwest = { version = "=0.13.5", default-features = false, features = ["stream"] }
serde = { version = "=1.0.229", features = ["derive"] }
serde_bytes = "0.11"
serde_json = "=1.0.154"
sha256 = { version = "=1.6.0", default-features = false }
tokio = { version = "=1.54.1", features = ["rt-multi-thread", "macros", "io-util"] }
tracing = "0.1"
