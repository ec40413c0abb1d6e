[package]
name = "coreutils"
version = "0.1.0"
edition = "2021"
publish = false

[dependencies]
tempfile = "3"
num_cpus = "1"
clap = "2"
