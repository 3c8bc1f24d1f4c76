[package]
name = "deepsql"
version = "0.1.0"
edition = "2021"
publish = false

[dependencies]
serde = { version = "1", features = ["derive"] }
serde_json = "1"
prettytable-rs = "0.10"
rustyline = "*"
libc = "0.2"
clap = { version = "4", features = ["derive"] }
