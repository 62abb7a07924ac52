[package]
name = "john"
version = "0.1.0"
edition = "2021"
publish = false

[dependencies]
url = "=2.5.8"
iron = "=0.6.1"
router = "=0.6.0"
rustc-serialize = "=0.3.25"
http = "=1.5.0"
