[package]
name = "bratwurst"
version = "0.1.0"
edition = "2021"
publish = false

[dependencies]
brotli2 = "0.3"
clap = "2"
