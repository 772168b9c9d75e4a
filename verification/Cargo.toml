[package]
name = "state_search"
version = "0.1.0"
edition = "2021"
publish = false

[dependencies]
num = "=0.4.3"
rustc-hash = "=2.1.3"
