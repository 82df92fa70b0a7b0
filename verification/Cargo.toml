[package]
name = "htmldom"
version = "0.1.0"
edition = "2021"
publish = false

[dependencies]
html5ever = "*"
