[package]
name = "max_clique"
version = "0.1.0"
edition = "2021"
publish = false

[dependencies]
clap = "2.33"
dirs = "3.0"
