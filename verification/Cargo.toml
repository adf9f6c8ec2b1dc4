[package]
name = "snarf"
version = "0.1.0"
edition = "2021"
publish = false

[dependencies]
etherparse = "0.15"
nfq = "*"
tokio = { version = "1", features = ["macros", "net", "rt", "time"] }
