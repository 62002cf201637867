[package]
name = "devicetree"
version = "0.1.0"
edition = "2021"
publish = false

[dependencies]
ascii = "1"
fallible-iterator = "0.3"
