[package]
name = "mexe"
version = "0.1.0"
edition = "2021"
publish = false

[dev-dependencies]
float-cmp = "*"
glc = "*"
meval = "*"
