[package]
name = "lbroker"
version = "0.1.0"
edition = "2021"
publish = false

[dependencies]
rmpv = { version = "=1.3.1", features = ["with-serde"] }
rmp-serde = "=1.3.1"
serde = { version = "=1.0.229", features = ["derive"] }
bytes = "=1.12.1"
tokio = { version = "=1.54.1", features = ["full"] }
tokio-util = { version = "=0.7.20", features = ["codec"] }
tokio-stream = { version = "=0.1.19", features = ["sync"] }
futures = "=0.3.34"
uuid = { version = "=1.29.0", features = ["v4"] }
log = "=0.4.35"
env_logger = "=0.11.11"
clap = { version = "=4.6.7", features = ["derive"] }
dashmap = "=6.2.1"
tracing = "=0.1.44"
tracing-subscriber = { version = "=0.3.23", features = ["env-filter", "json"] }
