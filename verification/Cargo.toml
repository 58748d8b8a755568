[package]
name = "wildcard_obf"
version = "0.1.0"
edition = "2021"
publish = false

[dependencies]
rust-gmp = "*"
rand = "=0.8.8"

[dev-dependencies]
num = "=0.4.3"
