[package]
name = "hybrid_arraydeque"
version = "0.1.4"
edition = "2021"
publish = false

[dependencies]
hybrid-array = "*"
serde_core = "*"

[dev-dependencies]
serde_test = "*"
