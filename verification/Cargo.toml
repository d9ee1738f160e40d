[package]
name = "exspec_lang"
version = "0.1.0"
edition = "2021"
publish = false

[dependencies]
regex = "1"
tree-sitter = "*"
tree-sitter-python = "*"
tree-sitter-rust = "*"
streaming-iterator = "*"
