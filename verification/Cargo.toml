[package]
name = "exchange_rate"
version = "0.1.0"
edition = "2021"
publish = false

[dependencies]
clap = { version = "=4.6.7", features = ["derive"] }
reqwest = "=0.13.5"
tokio = { version = "=1.53.2", features = ["rt-multi-thread", "macros"] }
env_logger = "=0.11.11"
log = "=0.4.34"
tracing = "=0.1.44"
