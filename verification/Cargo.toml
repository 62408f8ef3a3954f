[package]
name = "sql_lsp"
version = "0.3.0"
edition = "2021"
publish = false

[dependencies]
tree-sitter = "*"
tree-sitter-sequel = "*"
lsp-server = "*"
lsp-types = "*"
serde_json = "*"
crossbeam-channel = "*"
zed_extension_api = "*"
