[package]
name = "tournament_sim"
version = "0.1.0"
edition = "2021"
publish = false

[dependencies]
rand = "0.8"
serde = { version = "1", features = ["derive"] }
serde_yaml = "0.9"
linked-hash-map = { version = "0.5", features = ["serde_impl"] }
rayon = "1"
