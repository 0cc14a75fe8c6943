[package]
name = "tatadr"
version = "0.1.0"
edition = "2021"
publish = false

[dependencies]
bls12_381 = "*"
sha2 = "*"
rand = "*"
clear_on_drop = "*"
clap = "2"
