[package]
name = "dnssteal"
version = "0.1.0"
edition = "2021"
publish = false

[dependencies]
anyhow = "1"
base64 = "0.13"
chrono = { version = "0.4", features = ["serde"] }
env_logger = "0.9"
log = "0.4"
md5 = "0.7"
once_cell = "1"
serde = { version = "1", features = ["derive"] }
structopt = "0.3"
tokio = { version = "1", features = ["rt-multi-thread", "sync"] }
trust-dns-proto = "0.20"
