[package]
name = "pinocchio_demo"
version = "0.1.0"
edition = "2021"
publish = false

[dependencies]
ark-bn254 = "0.4.0"
ark-ec = "0.4.2"
ark-ff = "0.4.2"
ark-poly = "0.4.2"
ark-std = "0.4.0"
ark-serialize = "0.4.2"
serde = { version = "1", features = ["derive"] }
serde_json = "1"
