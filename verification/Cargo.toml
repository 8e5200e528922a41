[package]
name = "code_intel"
version = "0.1.0"
edition = "2021"
publish = false

[dependencies]
once_cell = "1"
tree-sitter = "0.20"
tree-sitter-go = "0.20"
