[package]
name = "accumulators"
version = "0.1.0"
edition = "2021"
publish = false

[dependencies]
num-bigint-dig = { version = "0.8", features = ["prime"] }
num-integer = "0.1"
num-traits = "0.2"
rand = "0.8"
sha2 = "0.10"

[dev-dependencies]
rand_xorshift = "0.3"
