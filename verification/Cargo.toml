[package]
name = "duplihere"
version = "0.1.0"
edition = "2021"
publish = false

[dependencies]
dashmap = "*"
rayon = "*"
glob = "*"
serde = { version = "*", features = ["derive"] }
serde_json = "*"
