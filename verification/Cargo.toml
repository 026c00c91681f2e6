[package]
name = "moonblokz_mempool"
version = "0.1.0"
edition = "2021"

[dependencies]
rand_xoshiro = "0.7"
