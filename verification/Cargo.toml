[package]
name = "p2p_channel"
version = "0.1.0"
edition = "2021"
publish = false

[dependencies]
anyhow = "1"
chrono = "0.4"
crossbeam = "0.8"
crossbeam-skiplist = "0.1"
dashmap = "5"
log = "0.4"
mio = { version = "1", features = ["os-poll", "net"] }
network-interface = "1"
parking_lot = "0.12"
rand = "0.8"
socket2 = { version = "0.5", features = ["all"] }
