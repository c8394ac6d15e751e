[package]
name = "npuzzle"
version = "0.1.0"
edition = "2021"
publish = false

[dependencies]
rand = "=0.8.8"
clap = "=2.34.0"
log = "=0.4.34"
chrono = "=0.4.45"
text_io = "=0.1.13"
bevy = { version = "0.6", default-features = false, features = ["render"] }
