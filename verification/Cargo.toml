[package]
name = "pairwise_distances"
version = "0.1.0"
edition = "2021"
publish = false

[dependencies]
rayon = "1"
rand = "0.8"
pyo3 = "0.21"
numpy = "0.21"
num-complex = "0.4"
