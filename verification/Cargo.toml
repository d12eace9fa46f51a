[package]
name = "line_freq"
version = "0.1.0"
edition = "2021"
publish = false

[dependencies]
failure = "0.1"
hashbrown = "0.9"
rayon = "1"
signal-hook = "0.1"
structopt = "0.2"
