[package]
name = "termstat"
version = "0.1.0"
edition = "2021"
publish = false

[dependencies]
rusqlite = { version = "=0.40.2", features = ["bundled", "fallible_uint"] }
clap = { version = "=4.6.7", features = ["derive"] }
comfy-table = "=8.0.1"
dirs = "=7.0.0"
