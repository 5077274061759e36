[package]
name = "spaced_list"
version = "0.1.0"
edition = "2021"
publish = false

[dependencies]
indenter = "0.3"
num-traits = "0.2"
