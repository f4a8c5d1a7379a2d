[package]
name = "sov_vault"
version = "0.1.0"
edition = "2021"
publish = false

[dependencies]
anyhow = "=1.0.104"
chacha20poly1305 = "=0.10.1"
clap = { version = "=4.6.7", features = ["derive"] }
heed = "0.22"
hex = "=0.4.3"
pcap-file = "=2.0.0"
rusqlite = { version = "=0.31.0", features = ["bundled"] }
serde = { version = "=1.0.229", features = ["derive"] }
serde_json = "=1.0.154"
tokio = { version = "=1.54.1", features = ["full"] }
toml = "=0.8.23"
tracing = "=0.1.44"
tracing-subscriber = { version = "=0.3.23", features = ["env-filter"] }
zenoh = { version = "=1.10.2", default-features = false }
