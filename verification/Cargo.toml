[package]
name = "pagegraph"
version = "0.1.0"
edition = "2021"
publish = false

[dependencies]
adblock = "*"
addr = "*"
petgraph = "*"
url = "*"
