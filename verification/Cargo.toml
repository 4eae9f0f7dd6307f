[package]
name = "sqfs"
version = "0.1.0"
edition = "2021"
publish = false

[dependencies]
flate2 = "1"
clap = { version = "4", features = ["derive"] }
nix = { version = "*", features = ["fs"] }
tracing = "0.1"
tracing-subscriber = "0.3"
