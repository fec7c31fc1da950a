[package]
name = "kerndeterminer"
version = "0.1.0"
edition = "2021"
publish = false

[dependencies]
babelfont = "*"
env_logger = "*"
kurbo = "*"
log = "*"
pyo3 = "*"
