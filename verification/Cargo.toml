[package]
name = "spellcheck"
version = "0.1.0"
edition = "2021"
publish = false

[dependencies]
cachers = "*"
rayon = "1"
serde_json = "1"
