[package]
name = "cargo-abc"
version = "1.0.0"
edition = "2021"
publish = false

[dependencies]
clap = "4"
glob = "0.3"
toml_edit = "0.22"
