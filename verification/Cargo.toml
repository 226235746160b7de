[package]
name = "todotree"
version = "0.1.0"
edition = "2021"
publish = false

[dependencies]
getopts = "0.2"
inotify = { version = "*", default-features = false }
libc = "0.2"
