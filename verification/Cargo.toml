[package]
name = "petals_client"
version = "0.1.0"
edition = "2021"
publish = false

[dependencies]
tokio = { version = "1", features = ["net"] }
tokio-tungstenite = "*"
futures-util = "0.3"
