[package]
name = "clashtui"
version = "0.1.0"
edition = "2021"
publish = false

[dependencies]
serde_yaml = "0.9"
minreq = "2"
