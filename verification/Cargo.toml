[package]
name = "uuidt"
version = "0.1.0"
edition = "2021"
publish = false

[dependencies]
gethostname = "*"
rand = "0.8"
