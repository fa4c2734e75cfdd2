[package]
name = "masterenv"
version = "0.1.0"
edition = "2021"
publish = false

[dependencies]
config = "0.14"
serde = { version = "1", features = ["derive"] }
