[package]
name = "yspace2"
version = "0.1.0"
edition = "2021"
publish = false

[dependencies]
bitvec = "1"
bstr = "1"
compact_str = "0.7"
clap = { version = "4", features = ["derive"] }
