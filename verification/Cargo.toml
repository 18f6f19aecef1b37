[package]
name = "groth16_rs"
version = "0.1.0"
edition = "2021"
publish = false

[dependencies]
bls12_381 = "*"
rand = "0.8"
