[package]
name = "noyalib_lsp"
version = "0.1.0"
edition = "2021"
publish = false

[dependencies]
noyalib = "=0.0.58"
serde_json = "=1.0.154"
