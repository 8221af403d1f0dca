[package]
name = "phie"
version = "0.1.0"
edition = "2021"
publish = false

[dependencies]
itertools = "=0.14.0"
env_logger = "=0.11.11"
log = "0.4"
