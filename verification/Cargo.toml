[package]
name = "ignix"
version = "0.1.0"
edition = "2021"
publish = false

[dependencies]
anyhow = "1"
bytes = "1"
crossbeam = "0.8"
dashmap = "*"
env_logger = "*"
hashbrown = "*"
mimalloc = "*"
mio = { version = "*", features = ["os-poll", "net"] }
socket2 = { version = "*", features = ["all"] }
