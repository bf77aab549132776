[package]
name = "orderbooks"
version = "0.1.0"
edition = "2021"
publish = false

[dependencies]
tokio = { version = "*", features = ["full"] }
tokio-stream = "*"
tokio-tungstenite = "*"
futures-util = "*"
log = "*"
env_logger = "*"
config = "*"
metrics = "*"
metrics-exporter-prometheus = "*"
