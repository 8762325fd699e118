[package]
name = "archpatch"
version = "0.1.0"
edition = "2021"
publish = false

[dependencies]
alpm = "*"
clap = { version = "*", features = ["derive"] }
gitpatch = "*"
itertools = "*"
pacmanconf = "*"
tempfile = "*"
