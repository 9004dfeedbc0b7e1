[package]
name = "zdb"
version = "0.1.0"
edition = "2021"

[dependencies]
log = "0.4"
uuid = { version = "1", features = ["v4"] }

[dev-dependencies]
rand = "0.8"
