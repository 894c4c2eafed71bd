[package]
name = "boxflow"
version = "0.1.0"
edition = "2021"
publish = false

[dependencies]
font-kit = "=0.6.0"
skribo = "=0.1.0"
