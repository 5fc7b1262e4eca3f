[package]
name = "cpu_sparse"
version = "0.1.0"
edition = "2021"
publish = false

[dependencies]
zune-png = "=0.4.10"
peniko = "=0.6.1"
rand = "=0.10.3"
usvg = "=0.49.0"
