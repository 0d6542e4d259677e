[package]
name = "myu"
version = "0.1.0"
edition = "2021"
publish = false

[dependencies]
ansi_term = "*"
anyhow = "*"
atty = "*"
combine = { version = "*", features = ["regex"] }
regex = "*"
structopt = "*"
thiserror = "*"
