[package]
name = "devnet_mempool"
version = "0.1.0"
edition = "2021"
publish = false

[dependencies]
indexmap = "=2.14.2"
lru = { version = "=0.19.0", default-features = false }
serde = { version = "=1.0.229", features = ["derive"] }
serde_json = "=1.0.154"
url = "=2.5.8"
tokio = { version = "=1.54.1", features = ["sync", "macros", "rt"] }
reqwest = { version = "=0.13.5", default-features = false, features = ["json"] }
axum = "=0.8.9"
anyhow = "=1.0.104"
tracing = "=0.1.44"
starknet-core = "=0.16.0"
starknet-providers = "=0.16.0"
