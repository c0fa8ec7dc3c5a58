[package]
name = "common_lib"
version = "0.1.0"
edition = "2021"
publish = false

[dependencies]
image = "0.21"
steganography = "1.0.2"
