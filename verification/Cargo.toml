[package]
name = "bgp_analyzer"
version = "0.1.0"
edition = "2021"
publish = false

[dependencies]
anyhow = "1"
byteorder = "1"
bzip2 = "*"
clap = { version = "4", features = ["derive"] }
colored = "*"
dashmap = "*"
flate2 = "1"
petgraph = "*"
rayon = "1"
