[package]
name = "sixel-bytes"
version = "0.3.0"
edition = "2021"
publish = false

[dependencies]
image = "0.24"
sixel-sys = "*"
