[package]
name = "rapidtag"
version = "0.1.0"
edition = "2021"
publish = false

[dependencies]
image = { version = "0.25", default-features = false }
nalgebra = "0.33"
rayon = "1"
libc = "0.2"
mimalloc = { version = "0.1", default-features = false }
pyo3 = { version = "0.22", features = ["abi3-py39", "extension-module"] }
numpy = "0.22"
