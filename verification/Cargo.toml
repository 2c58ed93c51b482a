[package]
name = "drift_ingest"
version = "0.1.0"
edition = "2021"
publish = false

[dependencies]
anyhow = "*"
bs58 = "*"
config = "*"
futures = "*"
serde = { version = "*", features = ["derive"] }
serde_json = "*"
solana-sdk = "=2.3.1"
tokio = { version = "*", features = ["macros", "rt-multi-thread"] }
tracing = "*"
tracing-appender = "*"
tracing-subscriber = { version = "*", features = ["env-filter"] }
