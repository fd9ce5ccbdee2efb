[package]
name = "utrace"
version = "0.1.0"
edition = "2021"
publish = false

[dependencies]
prost = "*"
toml = "*"
log = "*"
pretty_env_logger = "*"
