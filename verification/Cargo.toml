[package]
name = "lohdb"
version = "0.1.0"
edition = "2021"
publish = false

[dependencies]
crossbeam = "*"
uuid = { version = "*", features = ["v4"] }
clap = { version = "*", features = ["derive"] }
