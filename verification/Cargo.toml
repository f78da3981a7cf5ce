[package]
name = "terminal_chat"
version = "0.1.0"
edition = "2021"
publish = false

[dependencies]
chrono = { version = "0.4", features = ["serde"] }
clap = { version = "4", features = ["derive"] }
deflate = "1"
inflate = "0.4"
serde = { version = "1", features = ["derive"] }
thiserror = "2"
