[package]
name = "netiso-srv"
version = "0.1.0"
edition = "2021"
publish = false

[dependencies]
chd = "*"
glob = "*"
libchdman-rs = "*"
tokio = { version = "1", features = ["fs", "io-util", "macros", "net", "rt-multi-thread"] }
zarchive = "*"
