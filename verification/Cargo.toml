[package]
name = "ddarecover"
version = "0.1.0"
edition = "2021"
publish = false

[dependencies]
libc = "*"
nix = "*"
getopts = "*"
ctrlc = "*"
ansi-escapes = "*"
num = "*"
