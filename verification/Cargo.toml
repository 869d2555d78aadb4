[package]
name = "apictl"
version = "0.1.0"
edition = "2021"
publish = false

[dependencies]
anyhow = "*"
clap = { version = "*", features = ["derive"] }
crossterm = "*"
indicatif = "*"
prettytable-rs = "*"
regex = "*"
reqwest = { version = "*", default-features = false, features = ["multipart", "query", "form", "stream"] }
serde = { version = "*", features = ["derive"] }
serde_yaml = "*"
thiserror = "*"
tokio = { version = "*", features = ["macros", "rt-multi-thread", "fs"] }
walkdir = "*"
