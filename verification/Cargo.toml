[package]
name = "robotics-foundations"
version = "0.1.0"
edition = "2021"
publish = false

[dependencies]
nalgebra = { version = "=0.33.3", features = ["serde-serialize"] }
rand = "=0.8.8"
serde = { version = "=1.0.229", features = ["derive"] }
