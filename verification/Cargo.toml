[package]
name = "orga"
version = "0.1.0"
edition = "2021"
publish = false

[dependencies]
ed25519-dalek = "1"
sha2 = "0.10"
rand_core = { version = "0.5", features = ["getrandom"] }
home = "0.5"
