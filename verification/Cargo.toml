[package]
name = "netor"
version = "0.1.0"
edition = "2021"
publish = false

[dependencies]
clap = { version = "=4.6.7", features = ["derive"] }
ctrlc = "=3.5.2"
libc = "=0.2.191"
pcap = "=2.5.0"
sysinfo = "=0.37.2"
