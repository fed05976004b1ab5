[package]
name = "conformance_lang"
version = "0.1.0"
edition = "2021"
publish = false

[dependencies]
syn = { version = "2", features = ["full", "parsing"] }
proc-macro2 = "1"
regex = "1"
