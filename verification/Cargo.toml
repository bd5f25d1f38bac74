[package]
name = "differential_growth"
version = "0.1.0"
edition = "2021"
publish = false

[dependencies]
kd-tree = "*"
nalgebra = "*"
typenum = "*"
