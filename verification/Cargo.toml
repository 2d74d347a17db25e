[package]
name = "dotree"
version = "0.1.0"
edition = "2021"
publish = false

[dependencies]
anyhow = "*"
clap = { version = "*", features = ["derive"] }
console = "*"
ctrlc = "*"
dirs = "*"
exec = "*"
log = "*"
pretty_env_logger = "*"
rustyline = "*"
