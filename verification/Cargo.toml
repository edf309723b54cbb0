[package]
name = "balancer"
version = "0.1.0"
edition = "2021"
publish = false

[dependencies]
anyhow = "*"
argh = "*"
log = "*"
reqwest = { version = "*", default-features = false }
simple_logger = "*"
tokio = { version = "*", features = ["rt-multi-thread", "macros", "net", "io-util", "time", "sync"] }
