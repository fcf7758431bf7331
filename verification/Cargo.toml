[package]
name = "hollow"
version = "0.1.0"
edition = "2021"
publish = false

[dependencies]
noiz = "=0.3.0"
serde = { version = "=1.0.229", features = ["derive"] }
ron = "=0.12.3"
