[package]
name = "ragu"
version = "0.1.0"
edition = "2021"
publish = false

[dependencies]
ff = { version = "0.13", default-features = false }
pasta_curves = { version = "0.5", default-features = false }
proc-macro2 = "1"
quote = "1"
syn = "2"
