[package]
name = "epg"
version = "0.1.0"
edition = "2021"
publish = false

[dependencies]
chrono = "=0.4.45"
xml-rs = "=0.8.29"
libflate = "=2.3.2"
curl = "=0.4.51"
error-rules = "=1.0.1"
