[package]
name = "zerotier_dns"
version = "1.0.0"
edition = "2021"
publish = false

[dependencies]
json = "0.12"
clap = "2"
reqwest = { version = "0.12", features = ["blocking"] }
