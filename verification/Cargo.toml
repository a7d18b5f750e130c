[package]
name = "wnfsutils"
version = "0.1.0"
edition = "2021"
publish = false

[dependencies]
sha3 = "0.10"
rsa = "0.9"
rand = "0.8"
rand_chacha = "0.3"
rand_core = "0.6"
chrono = "0.4"
kv = "*"
