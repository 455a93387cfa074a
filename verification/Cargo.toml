[package]
name = "rsfts"
version = "0.1.0"
edition = "2021"
publish = false

[dependencies]
anyhow = "1"
axum = "0.7"
bincode = "1"
clap = { version = "4", features = ["derive"] }
flate2 = "1"
quick-xml = { version = "0.31", features = ["serialize"] }
rust-stemmers = "1.2"
serde = { version = "1", features = ["derive"] }
sled = "0.34"
tokio = { version = "1", features = ["full"] }
tracing = "0.1"
tracing-subscriber = { version = "0.3", features = ["env-filter"] }
