[package]
name = "oraculum"
version = "0.1.0"
edition = "2021"
publish = false

[dependencies]
aho-corasick = "=1.1.5"
base64 = "=0.22.1"
numpy = "=0.22.1"
outlines-core = { version = "0.2", default-features = false }
pyo3 = "=0.22.6"
