[package]
name = "rpkg"
version = "0.1.0"
edition = "2021"
publish = false

[dependencies]
curl = "=0.4.51"
debversion = { version = "=0.5.5", default-features = false }
regex = "=1.13.1"
urlencoding = "=2.1.3"
