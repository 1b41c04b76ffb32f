[package]
name = "ruthenium"
version = "0.1.0"
edition = "2021"
publish = false

[dependencies]
regex = "*"
glob = "*"
clap = "2"
libc = "*"
memmap = "*"
num_cpus = "*"
scoped_threadpool = "*"
walkdir = "*"
