[package]
name = "moonblokz_blockchain"
version = "0.1.0"
edition = "2021"

[dependencies]
rand_xoshiro = "0.7"
