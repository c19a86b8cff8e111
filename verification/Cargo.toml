[package]
name = "docgraph"
version = "0.1.0"
edition = "2021"
publish = false

[dependencies]
anyhow = "=1.0.104"
bincode = "=2.0.1"
cargo_metadata = "=0.23.1"
cargo_toml = "=1.0.1"
clap = { version = "=4.6.7", features = ["derive"] }
elsa = "=1.11.2"
log = "=0.4.34"
mcplease = "=0.2.3"
rustc-hash = "=2.1.3"
rustdoc-types = "=0.61.0"
schemars = "*"
serde = { version = "=1.0.229", features = ["derive"] }
serde_json = "=1.0.154"
shellexpand = "=3.1.2"
strsim = "=0.11.1"
strum = { version = "*", features = ["derive"] }
walkdir = "=2.5.0"
