[package]
name = "iwwc"
version = "0.1.0"
edition = "2021"
publish = false

[dependencies]
clap = { version = "=4.6.7", features = ["derive"] }
tokio = { version = "=1.54.1", features = ["rt", "rt-multi-thread", "net", "io-util", "sync", "macros", "time", "process"] }
log = "=0.4.35"
env_logger = "=0.11.11"
kdl = "6"
