[package]
name = "toml_syntax"
version = "0.1.0"
edition = "2021"

[dependencies]
rowan = "=0.10.6"
