[package]
name = "lattice_cipher"
version = "0.1.0"
edition = "2021"
publish = false

[dependencies]
rand = "0.8"
csv = "1"
nalgebra = "0.33"
approx = "0.5"
