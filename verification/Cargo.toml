[package]
name = "crabsoup"
version = "0.1.0"
edition = "2021"
publish = false

[dependencies]
scraper = "=0.27.0"
ego-tree = "=0.11.0"
html5ever = "=0.39.0"
md-5 = "=0.11.0"
sha1 = "=0.11.0"
sha2 = "=0.11.0"
blake2 = "=0.11.0"
base64 = "=0.23.1"
urlencoding = "=2.1.3"
html-escape = "=0.2.15"
regex = "=1.13.1"
csv = "=1.4.0"
serde_json = "=1.0.151"
encoding_rs = "=0.8.42"
clap = { version = "=4.6.7", features = ["derive"] }
