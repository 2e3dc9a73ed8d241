[package]
name = "tickdb"
version = "0.1.0"
edition = "2021"
publish = false

[dependencies]
chrono = "0.4"
serde = { version = "1", features = ["derive"] }
serde_json = "1"
tiny_http = "*"
httparse = "1"
nix = { version = "*", features = ["signal", "process"] }
log = "*"
simple_logger = "*"
memmap = "0.7"
