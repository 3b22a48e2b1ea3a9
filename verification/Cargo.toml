[package]
name = "bgp_paths"
version = "0.1.0"
edition = "2021"
publish = false

[dependencies]
bgpkit-broker = "*"
bgpkit-parser = "*"
clap = { version = "4", features = ["derive"] }
env_logger = "*"
ipnet = "2"
log = "0.4"
reqwest = { version = "*", features = ["blocking"] }
