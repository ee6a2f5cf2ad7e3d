[package]
name = "nn_rs"
version = "0.1.0"
edition = "2021"
publish = false

[dependencies]
anyhow = "1"
nalgebra = { version = "0.31", features = ["serde-serialize"] }
serde = { version = "1", features = ["derive"] }
serde_json = "1"
