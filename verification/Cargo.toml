[package]
name = "triblespace"
version = "0.1.0"
edition = "2021"
publish = false

[dependencies]
rand = "0.8"
siphasher = "1"
blake3 = "1"
itertools = "0.14"
arrayvec = "0.7"
