[package]
name = "engramark"
version = "0.1.0"
edition = "2021"
publish = false

[dependencies]
regex = "=1.13.1"
sha2 = "=0.10.9"
sha1 = "=0.10.7"
unicode-normalization = "=0.1.26"
time = { version = "=0.3.55", features = ["local-offset", "macros", "parsing"] }
clap = { version = "=4.6.7", features = ["derive"] }
serde_json = "=1.0.154"
toml = "0.8"
