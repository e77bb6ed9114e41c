[package]
name = "ranking"
version = "0.1.0"
edition = "2021"
publish = false

[dependencies]
ndarray = "0.16"
numpy = "*"
pyo3 = "*"
