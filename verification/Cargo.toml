[package]
name = "procflow"
version = "0.1.0"
edition = "2021"
publish = false

[dependencies]
hostname = "*"
tokio = { version = "*", features = ["sync", "rt-multi-thread", "macros", "time"] }
tokio-util = "*"
sysinfo = "*"
rouille = "*"
