[package]
name = "duplicate_finder"
version = "0.1.0"
edition = "2021"
publish = false

[dependencies]
anyhow = "*"
chrono = "*"
clap = { version = "*", features = ["derive"] }
indicatif = "*"
num_cpus = "*"
serde = { version = "*", features = ["derive"] }
serde_json = "*"
sha2 = "*"
thiserror = "*"
tokio = { version = "*", features = ["rt-multi-thread", "macros", "fs", "io-util", "sync"] }
tracing = "*"
tracing-subscriber = "*"
