[package]
name = "gossip"
version = "0.1.0"
edition = "2021"
publish = false

[dependencies]
rand = "0.4"
csv = "1"
serde = "1"
serde_derive = "1"
