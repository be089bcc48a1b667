[package]
name = "engram"
version = "0.1.0"
edition = "2021"
publish = false

[dependencies]
chrono = "*"
rand = "*"
sha2 = "*"
serde = { version = "*", features = ["derive"] }
serde_json = "*"
libc = "*"
tokio = { version = "*", features = ["rt-multi-thread", "macros", "sync", "time"] }
clap = { version = "*", features = ["derive"] }
colored = "*"
dirs = "*"
env_logger = "*"
log = "*"
eyre = "*"
