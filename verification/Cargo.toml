[package]
name = "wordchipper"
version = "0.1.0"
edition = "2021"
publish = false

[dependencies]
anyhow = "1"
directories-next = "2"
fancy-regex = "*"
