[package]
name = "spotsearch"
version = "0.1.0"
edition = "2021"
publish = false

[dependencies]
base64 = "0.22"
serde = { version = "1", features = ["derive"] }
serde_json = "1"
directories = "5"
rusqlite = { version = "0.31", features = ["bundled"] }
walkdir = "2"
