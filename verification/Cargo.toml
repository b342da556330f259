[package]
name = "routecache"
version = "0.1.0"
edition = "2021"
publish = false

[dependencies]
url = "=2.5.8"
rust-s3 = { version = "=0.38.0", default-features = false, features = ["sync-rustls-tls", "fail-on-err"] }
