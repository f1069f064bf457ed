[package]
name = "cordial"
version = "0.1.0"
edition = "2021"
publish = false

[dependencies]
serde_json = "1"
libadwaita = { version = "0.7", features = ["v1_5"] }
