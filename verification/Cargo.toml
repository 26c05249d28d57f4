[package]
name = "linked_ring"
version = "0.1.0"
edition = "2021"
publish = false

[dependencies]
scopeguard = "1"
serde = "1"

[dev-dependencies]
serde_json = "1"
