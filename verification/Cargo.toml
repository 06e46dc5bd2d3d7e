[package]
name = "disko"
version = "0.1.0"
edition = "2021"
publish = false

[dependencies]
anyhow = "1"
byte-unit = "5"
chrono = "0.4"
clap = { version = "4", features = ["derive"] }
crossterm = "0.27"
dunce = "1"
filesize = "0.2"
jwalk = "0.8"
ratatui = "0.26"
