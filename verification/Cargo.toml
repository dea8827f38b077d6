[package]
name = "mnist_rust"
version = "0.1.0"
edition = "2021"
publish = false

[dependencies]
bincode = "1"
csv = "1"
indicatif = "*"
ndarray = { version = "*", features = ["serde"] }
ndarray-rand = "*"
ndarray-stats = "*"
rand = "0.9"
serde = { version = "1", features = ["derive"] }
