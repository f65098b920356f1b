[package]
name = "semvercli"
version = "0.1.0"
edition = "2021"
publish = false

[dependencies]
clap = "=4.6.7"
toml_edit = "=0.25.15"
