[package]
name = "polyfit"
version = "0.1.0"
edition = "2021"
publish = false

[dependencies]
hound = "3"
ndarray = "0.16"
serde = { version = "1", features = ["derive"] }
serde_json = "1"
