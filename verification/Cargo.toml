[package]
name = "textsearch"
version = "0.1.0"
edition = "2021"
publish = false

[dependencies]
anyhow = "1"
clap = { version = "4", features = ["derive"] }
clap-verbosity-flag = "2"
colored = "2"
log = "0.4"
rayon = "1"
regex = "1"
simple_logger = "4"
