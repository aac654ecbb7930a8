[package]
name = "fast_estimate"
version = "0.1.0"
edition = "2021"
publish = false

[dependencies]
md5 = "0.7"
clap = "2.34"
