[package]
name = "nevy"
version = "0.1.0"
edition = "2021"
publish = false

[dependencies]
web-transport-proto = "0.2"
url = "2"
quinn-proto = { version = "0.11", default-features = false }
quinn-udp = "0.5"
bytes = "1"
bincode = "1"
serde = { version = "1", features = ["derive"] }
log = "0.4"
slotmap = "1"
futures-lite = "2"
