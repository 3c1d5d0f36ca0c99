[package]
name = "kvs"
version = "0.1.0"
edition = "2021"
publish = false

[dependencies]
clap = "4"
env_logger = "0.10"
log = "0.4"
sled = "0.34"
thiserror = "1"
