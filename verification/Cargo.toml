[package]
name = "mudskipper"
version = "0.1.0"
edition = "2021"
publish = false

[dependencies]
coitrees = "0.2"
bio = "*"
bio-types = "*"
clap = "2"
env_logger = "*"
log = "*"
num_cpus = "*"
indicatif = "*"
linecount = "*"
