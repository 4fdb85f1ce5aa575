[package]
name = "ssh_liaison"
version = "0.1.0"
edition = "2021"
publish = false

[dependencies]
anyhow = "*"
async-ssh2-lite = { version = "*", features = ["tokio"] }
clap = { version = "*", features = ["derive"] }
regex = "*"
rmcp = { version = "*", features = ["server", "transport-io"] }
serde = { version = "*", features = ["derive"] }
tokio = { version = "*", features = ["rt-multi-thread", "macros", "net", "io-util", "time", "sync"] }
tracing = "*"
tracing-subscriber = { version = "*", features = ["env-filter"] }
