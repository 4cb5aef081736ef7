[package]
name = "rust_service"
version = "0.1.0"
edition = "2021"
publish = false

[dependencies]
clap = { version = "*", features = ["derive"] }
glam = { version = "*", features = ["serde"] }
rand = "*"
rayon = "*"
serde = { version = "*", features = ["derive"] }
serde_json = "*"
