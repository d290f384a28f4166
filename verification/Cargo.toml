[package]
name = "m3lc"
version = "0.1.0"
edition = "2021"
publish = false

[dependencies]
colored = "2"
structopt = "0.3"
