[package]
name = "rit"
version = "0.1.0"
edition = "2021"
publish = false

[dependencies]
anyhow = "*"
chrono = "*"
clap = { version = "*", features = ["derive"] }
clap-verbosity-flag = "*"
env_logger = "*"
flate2 = "*"
hex = "*"
is_executable = "*"
log = "*"
rand = "*"
ring = "*"
walkdir = "*"
