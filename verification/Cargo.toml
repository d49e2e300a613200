[package]
name = "txs_eng"
version = "0.1.0"
edition = "2021"
publish = false

[dependencies]
csv = "*"
serde = { version = "*", features = ["derive"] }
thiserror = "*"
tokio = { version = "*", features = ["macros", "rt-multi-thread", "sync"] }
tokio-stream = { version = "*", features = ["sync"] }
tracing = "*"
tracing-subscriber = { version = "*", features = ["env-filter"] }
