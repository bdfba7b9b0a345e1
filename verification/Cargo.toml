[package]
name = "jumper"
version = "0.1.0"
edition = "2021"
publish = false

[dependencies]
whoami = "*"
clap = { version = "*", features = ["derive"] }
clap_complete = "*"
dirs = "*"
