[package]
name = "kvrs"
version = "0.1.0"
edition = "2021"
publish = false

[dependencies]
indexmap = { version = "*", features = ["serde"] }
postcard = { version = "*", features = ["alloc"] }
clap = "*"

[dev-dependencies]
rand = "0.8"
