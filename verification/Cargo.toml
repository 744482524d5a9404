[package]
name = "lsplt_rs"
version = "0.1.0"
edition = "2021"
publish = false

[dependencies]
fs-err = "*"
libc = "*"
log = "*"
log4rs = "*"
