[package]
name = "taskbook"
version = "0.1.0"
edition = "2021"
publish = false

[dependencies]
clap = "2"
rusqlite = { version = "0.24", features = ["bundled"] }
