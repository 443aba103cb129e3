[package]
name = "moqtail_core"
version = "0.1.0"
edition = "2021"
publish = false

[dependencies]
serde_json = "1"
clap = { version = "4", features = ["derive"] }
rumqttc = "0.24"
