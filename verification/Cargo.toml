[package]
name = "moon"
version = "0.1.0"
edition = "2021"
publish = false

[dependencies]
base64 = "0.22"
dashmap = "*"
derive_more = { version = "*", features = ["from"] }
futures-util = "0.3"
lazy_static = "1"
log = "0.4"
md-5 = "*"
mongodb = "3"
num_cpus = "1"
rand = "0.10"
sha1 = "*"
sha2 = "*"
tokio = { version = "1", features = ["rt-multi-thread", "sync", "time", "macros"] }
