[package]
name = "bundler"
version = "0.1.0"
edition = "2021"
publish = false

[dependencies]
anyhow = "=1.0.104"
env_logger = "=0.10.2"
getopts = "=0.2.24"
log = "=0.4.34"
proc-macro2 = "=1.0.52"
quote = "=1.0.26"
syn = { version = "=1.0.109", features = ["full", "fold", "visit"] }
