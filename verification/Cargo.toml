[package]
name = "email_analyser"
version = "0.1.0"
edition = "2021"
publish = false

[dependencies]
chrono = { version = "0.4", default-features = false, features = ["std"] }
encoding_rs = "0.8"
clap = { version = "4", features = ["derive"] }
terminal_size = "*"
walkdir = "2"
