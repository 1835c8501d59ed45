[package]
name = "mping"
version = "0.4.2"
edition = "2021"
publish = false

[dependencies]
pnet_packet = "0.34"
rand = "0.8"
ipnetwork = "0.20"
socket2 = { version = "0.5", features = ["all"] }
libc = "0.2"
log = "0.4"
rate_limit = "*"
ticker = "*"
cfg-if = "1"
clap = { version = "3", features = ["derive"] }
env_logger = "0.10"
chrono = "0.4"
anyhow = "1"
