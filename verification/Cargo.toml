[package]
name = "polymutate"
version = "0.1.0"
edition = "2021"
publish = false

[dependencies]
num-bigint = "0.4"
primal = "0.3"
rand = "0.9"
serde = { version = "1", features = ["derive"] }
serde_json = "1"

[dev-dependencies]
regex = "1"
