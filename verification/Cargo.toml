[package]
name = "walleye"
version = "0.1.0"
edition = "2021"
publish = false

[dependencies]
rand_chacha = "0.3"
clap = "2"
colored = "2"
log = "0.4"
simple-logging = "2"
mimalloc = { version = "0.1", default-features = false }
