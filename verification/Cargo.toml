[package]
name = "hvm_ast"
version = "0.1.0"
edition = "2021"
publish = false

[dependencies]
TSPL = "=0.0.13"
highlight_error = "=0.1.1"
rustc_apfloat = "*"
