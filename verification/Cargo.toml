[package]
name = "rfofs"
version = "0.1.0"
edition = "2021"
publish = false

[dependencies]
clap = { version = "4", features = ["derive"] }
env_logger = "*"
jack = "*"
libc = "0.2"
log = "0.4"
rtrb = "0.3"
slab = "0.4"
sndfile = "*"
wide = "0.7"
