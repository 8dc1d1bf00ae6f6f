[package]
name = "cargo_tree"
version = "0.1.0"
edition = "2021"
publish = false

[dependencies]
anyhow = "1"
cargo_metadata = "0.18"
semver = "1"
serde_json = "1"
structopt = "0.3"
