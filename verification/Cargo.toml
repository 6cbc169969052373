[package]
name = "smart_relay"
version = "0.1.0"
edition = "2021"
publish = false

[dependencies]
ascii_converter = "*"
clap = { version = "4", features = ["derive"] }
serialport = "4"
