[package]
name = "parts_shopper"
version = "0.1.0"
edition = "2021"
publish = false

[dependencies]
soup = "=0.5.1"
markup5ever = "=0.7.5"
reqwest = { version = "=0.12.28", default-features = false, features = ["blocking", "rustls-tls"] }
