[package]
name = "mvs"
version = "0.1.0"
edition = "2021"
publish = false

[dependencies]
anstream = "*"
anyhow = "1"
owo-colors = "4"
rusqlite = { version = "*", features = ["bundled"] }
serde = { version = "1", features = ["derive"] }
serde_json = "1"
