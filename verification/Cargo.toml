[package]
name = "gany"
version = "0.1.0"
edition = "2021"
publish = false

[dependencies]
anyhow = "=1.0.104"
bincode = "=1.3.3"
clap = "=4.6.7"
lz4_flex = "=0.11.6"
miette = "=7.6.0"
reqwest = { version = "=0.12.28", default-features = false, features = ["blocking"] }
semver = { version = "=1.0.28", features = ["serde"] }
serde = { version = "=1.0.229", features = ["derive"] }
serde_yaml = "=0.9.34"
sha3 = "=0.10.9"
tar = "=0.4.46"
thiserror = "=1.0.69"
url = { version = "=2.5.8", features = ["serde"] }
