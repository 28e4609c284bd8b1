[package]
name = "epos"
version = "0.1.0"
edition = "2021"
publish = false

[dependencies]
dashmap = "*"
getopts = "0.2"
rayon = "1"
