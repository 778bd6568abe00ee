[package]
name = "colr_paint"
version = "0.1.0"
edition = "2021"
publish = false

[dependencies]
skrifa = "*"
swash = "*"
