[package]
name = "smorse"
version = "0.1.0"
edition = "2021"
publish = false

[dependencies]
anyhow = "1"
counter = "*"
ctrlc = "3"
structopt = "0.3"
