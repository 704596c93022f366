[package]
name = "ddhpsi"
version = "0.1.0"
edition = "2021"
publish = false

[dependencies]
curve25519-dalek = { version = "=4.1.3", features = ["digest", "rand_core"] }
sha2 = "=0.10.9"
rand = "=0.8.8"
rand_core = "=0.6.4"
