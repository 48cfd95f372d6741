[package]
name = "shell"
version = "0.1.0"
edition = "2021"
publish = false

[dependencies]
regex = "1"
crossterm = "0.28"
libc = "0.2"
os_pipe = "1"
