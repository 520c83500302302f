[package]
name = "symbolica"
version = "0.1.0"
edition = "2021"
publish = false

[dependencies]
bytes = "=1.12.1"
rug = { version = "=1.19.2", default-features = false, features = ["integer", "rational"] }
gmp-mpfr-sys = { version = "~1.5", default-features = false, features = ["use-system-libs"] }
