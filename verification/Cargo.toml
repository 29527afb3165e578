[package]
name = "weggli"
version = "0.1.0"
edition = "2021"
publish = false

[dependencies]
colored = "2"
pyo3 = "*"
tree-sitter = "*"
tree-sitter-c = "*"
tree-sitter-cpp = "*"
