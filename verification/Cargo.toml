[package]
name = "num_bigint_ext"
version = "0.1.0"
edition = "2021"

[dependencies]
num-bigint = { version = "0.4", features = ["rand"] }
num-traits = "0.2"
rand_core = { version = "0.6", features = ["getrandom"] }
