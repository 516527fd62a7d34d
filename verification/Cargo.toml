[package]
name = "netscan"
version = "0.1.0"
edition = "2021"
publish = false

[dependencies]
clap = { version = "4", features = ["derive"] }
futures = "0.3"
ipnet = "2"
surge-ping = "*"
tokio = { version = "1", features = ["rt-multi-thread", "macros", "net", "time"] }
trust-dns-resolver = "*"
