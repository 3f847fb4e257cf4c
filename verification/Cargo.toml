[package]
name = "nimble"
version = "0.1.0"
edition = "2021"
publish = false

[dependencies]
serde = { version = "1", features = ["derive"] }
serde_json = "1"
serde_yaml = "0.9"
walkdir = "2"
notify = "*"
arboard = { version = "3", default-features = false }
enigo = "*"
