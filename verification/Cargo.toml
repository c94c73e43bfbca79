[package]
name = "ftp_mirror"
version = "0.1.0"
edition = "2021"
publish = false

[dependencies]
async_ftp = "*"
getopt = "*"
serde = { version = "*", features = ["derive"] }
serde_yaml = "*"
tokio = { version = "*", features = ["rt-multi-thread", "macros", "fs", "io-util"] }
