[package]
name = "ips2ra"
version = "0.1.0"
edition = "2021"
publish = false

[dependencies]
rand = "0.8"
rayon = "1"
log = "0.4"
env_logger = "0.11"
libc = "0.2"
lazy_static = "1"
