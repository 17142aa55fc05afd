[package]
name = "tct"
version = "0.1.0"
edition = "2021"
publish = false

[dependencies]
poseidon377 = "*"
decaf377 = "*"
ark-ff = "0.4"
rand_core = { version = "0.6", features = ["getrandom"] }
hex = "*"
serde = { version = "*", features = ["derive"] }
