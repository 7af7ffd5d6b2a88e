[package]
name = "hubbard"
version = "0.1.0"
edition = "2021"
publish = false

[dependencies]
csv = "*"
indicatif = "*"
itertools = "*"
lapack = "*"
ndarray = "*"
