[package]
name = "tokio_experiments"
version = "0.1.0"
edition = "2021"
publish = false

[dependencies]
bytes = "0.4"
futures = "0.1"
tokio-core = "0.1"
tokio-io = "0.1"
tokio-proto = "0.1"
tokio-service = "0.1"
tokio = "0.1"
error-chain = "0.12"
num_cpus = "1"
tungstenite = { version = "0.5", default-features = false }
tokio-tungstenite = { version = "0.5", default-features = false }
