[package]
name = "afp_dumper"
version = "0.1.0"
edition = "2021"
publish = false

[dependencies]
aho-corasick = "1"
clap = { version = "4", features = ["derive"] }
hex = "0.4"
