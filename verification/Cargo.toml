[package]
name = "http_probe"
version = "0.1.0"
edition = "2021"
publish = false

[dependencies]
clap = "4"
native-tls = "0.2"
