[package]
name = "ir"
version = "0.17.0"
edition = "2021"
publish = false

[dependencies]
chrono = "0.4"
serde_yaml = "0.9"
rusqlite = { version = "0.32", features = ["bundled"] }
