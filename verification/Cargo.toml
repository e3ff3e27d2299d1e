[package]
name = "wally"
version = "0.1.0"
edition = "2021"
publish = false

[dependencies]
anyhow = "1"
crossterm = "0.27"
fs-err = "2"
glob = "0.3"
indicatif = "0.17"
log = "0.4"
pathdiff = "0.2"
reqwest = { version = "0.11", default-features = false, features = ["blocking"] }
semver = "0.11"
serde = { version = "1", features = ["derive"] }
serde_json = "1"
structopt = "0.3"
tempfile = "3"
tokio = { version = "1", features = ["rt-multi-thread"] }
toml = "0.5"
ubyte = "0.10"
url = "2"
walkdir = "2"
