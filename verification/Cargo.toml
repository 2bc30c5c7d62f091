[package]
name = "solana_go_client"
version = "0.1.0"
edition = "2021"
publish = false

[dependencies]
log = "0.4"
serde = { version = "1", features = ["derive"] }
solana-sdk = "1.18"
thiserror = "1"
tokio = { version = "1", features = ["rt", "sync", "time"] }
