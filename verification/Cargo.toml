[package]
name = "mcpd"
version = "0.1.0"
edition = "2021"
publish = false

[dependencies]
anyhow = "*"
clap = { version = "*", features = ["derive"] }
dirs = "*"
tokio = { version = "*", features = ["rt-multi-thread", "macros", "process", "io-util", "io-std", "sync", "time"] }
tracing = "*"
tracing-subscriber = { version = "*", features = ["env-filter"] }
which = "*"
