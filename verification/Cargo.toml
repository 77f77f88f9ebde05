[package]
name = "axia_geo"
version = "0.1.0"
edition = "2021"
publish = false

[dependencies]
anyhow = "*"
earcutr = "*"
glam = "*"
rustc-hash = "*"
thiserror = "*"
