[package]
name = "gate_lock"
version = "0.1.0"
edition = "2021"
publish = false

[dependencies]
alloy = { version = "0.8", default-features = false }
revm = "14"
rand = "0.9"
