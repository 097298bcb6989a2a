[package]
name = "verve"
version = "0.1.0"
edition = "2021"
publish = false

[dependencies]
colored = "2"
rustyline = "7"
structopt = "0.3"
