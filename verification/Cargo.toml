[package]
name = "polynomials"
version = "0.1.0"
edition = "2021"
publish = false

[dependencies]
num = "=0.4.3"

[dev-dependencies]
regex = "=1.13.1"
