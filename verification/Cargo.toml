[package]
name = "hive"
version = "0.1.0"
edition = "2021"
publish = false

[dependencies]
bincode = { version = "2", features = ["serde"] }
serde = "1"
serde_json = "1"
ciborium = "0.2"
sudo2 = "*"
