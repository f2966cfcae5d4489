[package]
name = "activity_classifier"
version = "0.1.0"
edition = "2021"
publish = false

[dependencies]
base64 = "0.13"
bincode = "1"
smartcore = { version = "0.3", features = ["serde"] }
rusqlite = { version = "*", features = ["bundled"] }
csv = "1"
rand = "0.8"
serde = { version = "1", features = ["derive"] }
