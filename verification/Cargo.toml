[package]
name = "xdf"
version = "0.1.0"
edition = "2021"
publish = false

[dependencies]
xmltree = "*"
rustc_apfloat = "*"
