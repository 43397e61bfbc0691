[package]
name = "softraster"
version = "0.1.0"
edition = "2021"
publish = false

[dependencies]
rand = "0.8"
minifb = "0.25"
mki = "0.2"
