[package]
name = "interactive_proofs"
version = "0.1.0"
edition = "2021"
publish = false

[dependencies]
ark-bn254 = "0.4"
ark-ff = "0.4"
ark-poly = "0.4"
ark-std = "0.4"
ndarray = "0.15"
rand = "0.8"
