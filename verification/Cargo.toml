[package]
name = "cryptography-x509-verification"
version = "0.1.0"
edition = "2021"
publish = false

[dependencies]
asn1 = { version = "*", default-features = false }
