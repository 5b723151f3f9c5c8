[package]
name = "uiua_analysis"
version = "0.1.0"
edition = "2021"
publish = false

[dependencies]
uiua = { version = "*", default-features = false }
petgraph = "*"
