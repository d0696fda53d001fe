[package]
name = "trust"
version = "0.1.0"
edition = "2021"
publish = false

[dependencies]
etherparse = "*"
tun-tap = "*"
nix = { version = "*", features = ["poll"] }
tokio = { version = "*", features = ["rt-multi-thread", "macros"] }
