[package]
name = "writ"
version = "0.1.0"
edition = "2021"
publish = false

[dependencies]
notify = "*"
open = "*"
tree-sitter = "*"
tree-sitter-md = { version = "*", features = ["parser"] }
unicode-segmentation = "*"
