[package]
name = "dnscore"
version = "0.1.0"
edition = "2021"
publish = false

[dependencies]
reqwest = { version = "*", default-features = false, features = ["blocking", "rustls-tls"] }
native-tls = "*"
rustls = "*"
rustls-pki-types = "*"
webpki-roots = "*"
