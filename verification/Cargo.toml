[package]
name = "cram_core"
version = "0.1.0"
edition = "2021"
publish = false

[dependencies]
md-5 = "*"
