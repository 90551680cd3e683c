[package]
name = "ssh_done"
version = "0.1.0"
edition = "2021"
publish = false

[dependencies]
anyhow = "1"
clap = { version = "4", features = ["derive"] }
ctrlc = "3"
dirs = "5"
notify-rust = "4"
sysinfo = "0.33"
toml = "0.8"
