[package]
name = "retained"
version = "0.1.0"
edition = "2021"
publish = false

[dependencies]
proc-macro2 = "=1.0.107"
quote = "=1.0.47"
syn = { version = "=2.0.119", features = ["full", "visit", "visit-mut"] }
unicode-ident = "=1.0.27"
