[package]
name = "roomsync"
version = "0.1.0"
edition = "2021"
publish = false

[dependencies]
assystem = "*"
chrono = "*"
serde = { version = "*", features = ["derive"] }
serde_json = "*"
reqwest = { version = "*", features = ["blocking", "json"], default-features = false }
rouille = "*"
signal-hook = "*"
