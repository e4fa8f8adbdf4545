[package]
name = "vernacular"
version = "0.3.0"
edition = "2021"
publish = false

[dependencies]
csv = "1"
ron = "*"
