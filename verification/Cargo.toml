[package]
name = "lambda"
version = "0.1.0"
edition = "2021"
publish = false

[dependencies]
console = "0.15"
tree-sitter = "0.20"
