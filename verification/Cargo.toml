[package]
name = "treecopy"
version = "0.1.0"
edition = "2021"
publish = false

[dependencies]
sysinfo = { version = "0.29", default-features = false }
walkdir = "2"
