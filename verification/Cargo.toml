[package]
name = "lc3_decompiler"
version = "0.1.0"
edition = "2021"
publish = false

[dependencies]
lc3-ensemble = "*"
