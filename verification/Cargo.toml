[package]
name = "abi_values"
version = "0.1.0"
edition = "2021"
publish = false

[dependencies]
ethereum-types = "0.14"

[dev-dependencies]
rand = "0.8"
hex = "0.4"
