[package]
name = "atlas"
version = "0.1.0"
edition = "2021"
publish = false

[dependencies]
anyhow = "=1.0.104"
petgraph = "=0.6.5"
ra_ap_parser = "=0.0.349"
ra_ap_syntax = "=0.0.349"
rustix = { version = "=1.1.6", features = ["fs"] }
serde = { version = "=1.0.229", features = ["derive"] }
serde_json = "=1.0.154"
sha2 = "=0.10.9"
tempfile = "=3.27.0"
toml = "=0.8.23"
