[package]
name = "yuudb"
version = "0.1.0"
edition = "2021"
publish = false

[dependencies]
fs4 = "0.8"
serde = { version = "1", features = ["derive"] }
