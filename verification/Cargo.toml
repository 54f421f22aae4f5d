[package]
name = "downloader_cli"
version = "0.3.4"
edition = "2021"
publish = false

[dependencies]
regex = "1"
shellexpand = "3"
clap = { version = "4", features = ["derive"] }
reqwest = { version = "*", default-features = false, features = ["blocking"] }
termcolor = "1"
terminal_size = "*"
