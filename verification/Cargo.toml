[package]
name = "h2core"
version = "0.1.0"
edition = "2021"
publish = false

[dependencies]
httlib-huffman = "0.3"
serde = { version = "1", features = ["derive"] }
serde_json = "1"
clap = { version = "4", features = ["derive"] }
pcap-file = "2"
pnet_datalink = "0.35"
libc = "0.2"
tiny_http = "0.12"
