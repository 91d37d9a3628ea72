[package]
name = "c0mpute"
version = "0.1.0"
edition = "2021"
publish = false

[dependencies]
reed-solomon-erasure = "*"
blake3 = "1"
serde = { version = "1", features = ["derive"] }
serde_json = "1"
anyhow = "1"
async-trait = "0.1"
futures = "0.3"
tokio = { version = "1", features = ["full"] }
tracing = "0.1"
tracing-subscriber = { version = "0.3", features = ["env-filter"] }
clap = { version = "4", features = ["derive"] }
libp2p = { version = "*", features = ["tokio", "tcp", "noise", "yamux", "kad", "identify", "ping", "request-response", "cbor", "macros", "ed25519"] }
reqwest = { version = "0.12", default-features = false, features = ["rustls-tls"] }
