[package]
name = "wow_tools"
version = "0.1.0"
edition = "2021"
publish = false

[dependencies]
md-5 = "0.10"
flate2 = "1"
anyhow = "1"
ureq = "3"
tiny_http = "0.12"
