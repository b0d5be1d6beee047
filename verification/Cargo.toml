[package]
name = "notion-fs"
version = "0.1.0"
edition = "2021"
publish = false

[dependencies]
fuser = "0.17"
reqwest = { version = "0.12", default-features = false, features = ["blocking", "json", "rustls-tls"] }
serde = { version = "1", features = ["derive"] }
serde_json = "1"
serde_yaml = "0.9"
clap = { version = "4", features = ["derive"] }
indicatif = "0.17"
unicode-normalization = "0.1"
libc = "0.2"
ctrlc = "3"
