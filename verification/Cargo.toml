[package]
name = "wish"
version = "0.1.0"
edition = "2021"
publish = false

[dependencies]
rand = "*"
hex = "*"
serde = { version = "*", features = ["derive"] }
serde_json = "*"
