[package]
name = "mailscan"
version = "0.1.0"
edition = "2021"
publish = false

[dependencies]
mailparse = "*"
memchr = "*"
fuzzy-matcher = "*"
walkdir = "*"
structopt = "*"
crossbeam-channel = "*"
num_cpus = "*"
