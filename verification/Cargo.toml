[package]
name = "ngdp"
version = "0.1.0"
edition = "2021"
publish = false

[dependencies]
md-5 = "*"
flate2 = "*"
salsa20 = "*"
fasthash = "*"
