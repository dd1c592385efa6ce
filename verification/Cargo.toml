[package]
name = "reductos"
version = "0.1.0"
edition = "2021"
publish = false

[dependencies]
csv = "1"
indicatif = "0.17"
rand = "0.8"
