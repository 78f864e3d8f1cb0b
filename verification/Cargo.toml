[package]
name = "duplicant"
version = "0.1.0"
edition = "2021"
publish = false

[dependencies]
atty = "0.2"
byteorder = "1"
clap = { version = "4", features = ["derive"] }
crossbeam-channel = "0.5"
glob = "0.3"
humantime = "2"
num_cpus = "1"
sha1 = "0.10"
spin = "0.9"
