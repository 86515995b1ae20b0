[package]
name = "hamcli"
version = "0.1.0"
edition = "2021"
publish = false

[dependencies]
chrono = "0.4"
clap = { version = "4", features = ["derive", "env"] }
comfy-table = "7"
markdown = "*"
regex = "1"
sqlite = "*"
tokio = { version = "1", features = ["macros", "rt-multi-thread"] }
