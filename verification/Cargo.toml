[package]
name = "hive_asar"
version = "0.1.0"
edition = "2021"
publish = false

[dependencies]
hex = { version = "0.4", features = ["serde"] }
sha2 = "0.10"
serde = { version = "1", features = ["derive"] }
serde_json = "1"
tokio = { version = "1", features = ["fs", "io-util"] }
async-trait = "0.1"
pin-project = "1"
