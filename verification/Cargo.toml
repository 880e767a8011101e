[package]
name = "oscwrap"
version = "0.1.0"
edition = "2021"
publish = false

[dependencies]
rosc = "*"
percent-encoding = "*"
clap = { version = "*", features = ["derive"] }
env_logger = "*"
log = "*"
nix = { version = "*", features = ["signal"] }
signal-hook = "*"
