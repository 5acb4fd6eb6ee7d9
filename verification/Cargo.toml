[package]
name = "razbor"
version = "0.1.0"
edition = "2021"
publish = false

[dependencies]
annotate-snippets = "0.6"
