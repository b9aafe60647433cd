[package]
name = "fscan"
version = "0.1.0"
edition = "2021"
publish = false

[dependencies]
clap = { version = "4", features = ["derive"] }
rayon = "1"
sysinfo = "*"
walkdir = "2"

[dev-dependencies]
serde_json = "1"
