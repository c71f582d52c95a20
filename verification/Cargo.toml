[package]
name = "flicker"
version = "0.1.0"
edition = "2021"
publish = false

[dependencies]
path-clean = "*"
libafl_bolts = "=0.14.1"
libafl = "=0.14.1"
clap = { version = "*", features = ["derive"] }
serde = { version = "*", features = ["derive"] }
syzlang-parser = "*"
log = "*"
env_logger = "*"
