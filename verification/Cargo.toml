[package]
name = "syntax_forest"
version = "0.1.0"
edition = "2021"
publish = false

[dependencies]
bit-set = "*"
tree-sitter = "*"
jni = "*"
once_cell = "*"
streaming-iterator = "*"
thiserror = "*"
crossbeam-utils = "*"
