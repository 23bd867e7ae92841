[package]
name = "chaos"
version = "0.1.0"
edition = "2021"
publish = false

[dependencies]
base64 = "*"
clap = "*"
rand = "*"
rust-crypto = "*"
salsa20 = "*"
shellexpand = "*"
