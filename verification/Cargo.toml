[package]
name = "codon_core"
version = "0.1.0"
edition = "2021"
publish = false

[dependencies]
regex = "1"
linkify = "0.10"
serde = { version = "1", features = ["derive"] }
schemars = "1"
anyhow = "1"
futures = "0.3"
log = "0.4"
parking_lot = "0.12"
smol = "2"
