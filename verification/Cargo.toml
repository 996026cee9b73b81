[package]
name = "ajaccio"
version = "0.1.0"
edition = "2021"
publish = false

[dependencies]
fen = "*"
rand = "*"
