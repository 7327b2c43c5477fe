[package]
name = "smt"
version = "0.1.0"
edition = "2021"
publish = false

[dependencies]
sha2 = "*"
bytes = "*"

[dev-dependencies]
rand = "*"
