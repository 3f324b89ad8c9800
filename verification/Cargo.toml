[package]
name = "nepali_ime"
version = "0.1.0"
edition = "2021"
publish = false

[dependencies]
dirs = "*"
tempfile = "*"
