[package]
name = "chess_engine"
version = "0.1.0"
edition = "2021"
publish = false

[dependencies]
itertools = "*"
num = "*"
rand = "0.8"
rayon = "1"
serde = { version = "1", features = ["derive"] }
rocket = { version = "0.5", features = ["json"] }
