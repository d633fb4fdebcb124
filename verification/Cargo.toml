[package]
name = "logstash_rs"
version = "0.1.0"
edition = "2021"
publish = false

[dependencies]
chrono = "*"
log = "*"
rustls = "*"
webpki-roots = "*"
serde_json = "*"
