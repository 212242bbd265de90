[package]
name = "dotslash_cache"
version = "0.1.0"
edition = "2021"
publish = false

[dependencies]
nix = { version = "*", features = ["dir", "fs", "user", "process"] }
dirs = "*"
serde_jsonrc = "*"
