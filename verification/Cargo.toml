[package]
name = "rs_cidr_verifier"
version = "0.1.0"
edition = "2021"
publish = false

[dependencies]
pyo3 = "*"
