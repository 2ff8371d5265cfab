[package]
name = "disk_engine"
version = "0.1.0"
edition = "2021"
publish = false

[dependencies]
openssl = "=0.10.81"
nix = { version = "=0.31.3", features = ["fs"] }
fs_extra = "=1.3.0"
amy = "=0.10.0"
