[package]
name = "dingo"
version = "0.1.0"
edition = "2021"
publish = false

[dependencies]
pico-args = "*"
rand = "*"
