[package]
name = "janitor"
version = "0.1.0"
edition = "2021"
publish = false

[dependencies]
unicode-normalization = "0.1"
polars = { version = "*", default-features = false, features = ["fmt"] }
pyo3 = "*"
pyo3-polars = "*"
