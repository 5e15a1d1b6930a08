[package]
name = "game"
version = "0.1.0"
edition = "2021"
publish = false

[dependencies]
rand = "0.8"
rand_chacha = "0.3"
indicatif = "0.17"
num-format = "0.4"
ctrlc = "3"
