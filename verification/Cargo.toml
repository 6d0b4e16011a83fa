[package]
name = "concordevm"
version = "0.1.0"
edition = "2021"
publish = false

[dependencies]
io-streams = "*"
libloading = "*"
libffi = "*"
log = "*"
colog = "*"
