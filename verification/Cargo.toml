[package]
name = "accumulator"
version = "0.1.0"
edition = "2021"
publish = false

[dependencies]
rug = { version = ">=1.16, <1.23", default-features = false, features = ["integer"] }
gmp-mpfr-sys = { version = ">=1.4, <1.6", default-features = false, features = ["use-system-libs"] }
