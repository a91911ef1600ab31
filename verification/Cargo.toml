[package]
name = "wasnn"
version = "0.1.0"
edition = "2021"
publish = false

[dependencies]
fastrand = "*"
lexopt = "*"
serde = { version = "*", features = ["derive"] }
serde_json = "*"
