[package]
name = "ttlog"
version = "0.1.0"
edition = "2021"
publish = false

[dependencies]
chrono = "0.4"
clap = { version = "4", features = ["derive"] }
shellexpand = "3"
