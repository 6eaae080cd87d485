[package]
name = "ff"
version = "0.1.0"
edition = "2021"
publish = false

[dependencies]
ignore = "0.4"
libc = "0.2"
termion = "1.5"
