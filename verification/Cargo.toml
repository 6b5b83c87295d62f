[package]
name = "rowl"
version = "0.1.3"
edition = "2021"
publish = false

[dependencies]
walkdir = "2"

[dev-dependencies]
logos = "*"
