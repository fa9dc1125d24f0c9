[package]
name = "gll_codegen"
version = "0.1.0"
edition = "2021"
publish = false

[dependencies]
grammer = "=0.0.0"
indexmap = "=1.9.3"
proc-macro2 = { version = "=1.0.107", default-features = false }
