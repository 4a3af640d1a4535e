[package]
name = "wasmir"
version = "0.1.0"
edition = "2021"
publish = false

[dependencies]

[dev-dependencies]
toml = "*"
proc-macro2 = "*"
