[package]
name = "memapi"
version = "0.1.0"
edition = "2021"
publish = false

[dependencies]
im = "*"
inferno = "*"
pyo3 = "*"
once_cell = "*"
