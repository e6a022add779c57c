[package]
name = "price_parser"
version = "0.1.0"
edition = "2021"
publish = false

[dependencies]
regex = "1"
rust_decimal = "1"
pyo3 = "0.23"
