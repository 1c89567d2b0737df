[package]
name = "haex"
version = "0.1.0"
edition = "2021"
publish = false

[dependencies]
petgraph = "=0.6.5"
rand = { version = "=0.8.8", features = ["small_rng"] }
rand_distr = "=0.4.3"
