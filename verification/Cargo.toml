[package]
name = "mukti_redirects"
version = "0.1.0"
edition = "2021"
publish = false

[dependencies]
atomicwrites = "*"
camino = "*"
clap = { version = "*", features = ["derive"] }
color-eyre = "*"
mukti-metadata = "*"
semver = "*"
serde_json = "*"
