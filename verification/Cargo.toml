[package]
name = "fsidx"
version = "0.1.0"
edition = "2021"
publish = false

[dependencies]
globset = "=0.4.20"
natord = "=1.0.9"
walkdir = "=2.5.0"
