[package]
name = "disko-zfs"
version = "0.1.0"
edition = "2021"
publish = false

[dependencies]
clap = { version = "4", features = ["derive"] }
serde = { version = "1", features = ["derive"] }
serde_derive = "1"
serde_json = "1"
log = "0.4"
simple_logger = "*"
