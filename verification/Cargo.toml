[package]
name = "hyper_lib"
version = "0.1.0"
edition = "2021"
publish = false

[dependencies]
rand = "0.9"
log = "0.4"
clap = { version = "4", features = ["derive"] }
serde = { version = "1", features = ["derive"] }
csv = "1"
simple_logger = "5"
anyhow = "1"
home = "0.5"
crossterm = "0.28"
ratatui = "0.29"
