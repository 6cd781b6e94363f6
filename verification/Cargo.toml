[package]
name = "yarnpkg_parsers"
version = "0.1.0"
edition = "2021"
publish = false

[dependencies]
nom = "7"
serde_json = "1"
