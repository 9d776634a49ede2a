[package]
name = "ct_thumbnail"
version = "0.1.0"
edition = "2021"
publish = false

[dependencies]
image = "*"
pyo3 = "*"
walkdir = "*"

[dev-dependencies]
natord = "*"
