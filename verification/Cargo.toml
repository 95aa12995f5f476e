[package]
name = "liblzma"
version = "0.1.0"
edition = "2021"
publish = false

[dependencies]
byteorder = "1"
lazy_static = "1"
libc = "0.2"
nix = { version = "*", features = ["fs"] }
num_enum = "*"
