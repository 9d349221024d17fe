[package]
name = "fatigue"
version = "0.1.0"
edition = "2021"
publish = false

[dependencies]
serde = { version = "*", features = ["derive"] }
serde_yaml = "*"
serde_json = "*"
evalexpr = "*"
nalgebra = "*"
clap = "*"
