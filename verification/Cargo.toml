[package]
name = "compress_targets"
version = "0.1.0"
edition = "2021"
publish = false

[dependencies]
fast-tak = "*"
takparse = "*"
thiserror = "*"
