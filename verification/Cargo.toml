[package]
name = "linebuffer"
version = "0.1.0"
edition = "2021"
publish = false

[dependencies]
crop = "=0.4.3"
rand = "=0.10.3"
