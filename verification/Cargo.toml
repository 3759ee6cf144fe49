[package]
name = "peek"
version = "0.1.0"
edition = "2021"
publish = false

[dependencies]
pnet_packet = "0.35"
rand = "0.9"
nix = { version = "0.30", features = ["socket", "poll", "fs", "event", "net"] }
libc = "0.2"
owo-colors = "4"
clap = { version = "4", features = ["derive"] }
