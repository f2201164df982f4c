[package]
name = "chumsky-branch"
version = "0.1.0"
edition = "2021"
publish = false

[dependencies]
chumsky = "0.9"
