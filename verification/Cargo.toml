[package]
name = "check_markdown"
version = "0.1.0"
edition = "2021"
publish = false

[dependencies]
url = "2"
comrak = "*"
async-std = "1"
surf = { version = "2", default-features = false, features = ["h1-client-rustls"] }
