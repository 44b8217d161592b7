[package]
name = "valentinus"
version = "0.1.0"
edition = "2021"
publish = false

[dependencies]
kn0sys-lmdb-rs = "=0.1.6"
uuid = { version = "*", features = ["v4"] }
ndarray = "*"
kn0sys-nn = "=0.9.2"
ort = "=2.0.0-rc.13"
tokenizers = "*"
sysinfo = "*"

[dev-dependencies]
rand = "=0.8.8"
