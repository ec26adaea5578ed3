[package]
name = "pbn_ibmfa"
version = "0.1.0"
edition = "2021"
publish = false

[dependencies]
biodivine-lib-bdd = "*"
biodivine-lib-param-bn = "*"
clap = { version = "4", features = ["derive"] }
json = "0.12"
websocket = { version = "0.27", default-features = false, features = ["sync"] }
