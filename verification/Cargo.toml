[package]
name = "netforensics"
version = "0.1.0"
edition = "2021"
publish = false

[dependencies]
pnet = "0.35"
regex = "1"
sha2 = "0.10"
url = "2"
tokio = { version = "1", features = ["rt-multi-thread", "io-util"] }
h2 = "0.4"
http = "1"
zip = { version = "0.6", default-features = false }
pcap = "2"
fork = "0.1"
