[package]
name = "weighted_raffle"
version = "0.1.0"
edition = "2021"
publish = false

[dependencies]
sha3 = "0.10"
serde = { version = "1", features = ["derive"] }
serde_json = "1"
hex = "0.4"

[dev-dependencies]
rand = "0.8"
