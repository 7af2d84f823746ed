[package]
name = "alphabet_mask"
version = "0.1.0"
edition = "2021"
publish = false

[dependencies]
fxhash = "0.2"
pyo3 = { version = "0.20", features = ["extension-module", "abi3-py38"] }
rayon = "1"
