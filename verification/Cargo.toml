[package]
name = "num_prime"
version = "0.1.0"
edition = "2021"
publish = false

[dependencies]
num-bigint = "=0.4.8"
num-integer = "=0.1.47"
num-traits = "=0.2.19"
dashu-int = { version = "=0.4.3", features = ["num-integer", "num-traits"] }
dashu-base = "=0.4.3"
