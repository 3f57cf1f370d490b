[package]
name = "vision"
version = "0.1.0"
edition = "2021"
publish = false

[dependencies]
nalgebra = { version = "0.32", features = ["rand"] }
nalgebra-sparse = "0.9"
rand = "0.8"
serde = { version = "1", features = ["derive"] }
