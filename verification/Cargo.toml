[package]
name = "editor_input"
version = "0.1.0"
edition = "2021"
publish = false

[dependencies]
aho-corasick = "=1.1.5"
regex = "=1.13.1"
unicode-segmentation = "=1.13.3"
ropey = "=1.6.1"
tree-sitter = "=0.27.1"

[dev-dependencies]
tree-sitter-rust = "*"
tree-sitter-typescript = "*"
