[package]
name = "repeating_decimal"
version = "0.1.0"
edition = "2021"

[dependencies]
pyinrs = "=1.10.1"

[dev-dependencies]
regex = "=1.13.1"
