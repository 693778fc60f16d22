[package]
name = "rinput"
version = "0.1.0"
edition = "2021"
publish = false

[dependencies]
gapbuffer = "*"
unicode-width = "*"
