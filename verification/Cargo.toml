[package]
name = "xf"
version = "0.1.0"
edition = "2021"
publish = false

[dependencies]
regex = "*"
chrono = "*"
clap = "*"
owo-colors = "*"
terminal_size = "*"
dirs = "*"
dunce = "*"
users = "*"
