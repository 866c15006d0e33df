[package]
name = "sssp_fast"
version = "0.1.0"
edition = "2021"
publish = false

[dependencies]
nalgebra = "*"
num-traits = "*"
ordered-float = "*"
rayon = "*"
