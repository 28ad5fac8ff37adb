[package]
name = "pirate_sim"
version = "0.1.0"
edition = "2021"
publish = false

[dependencies]
bracket-lib = "0.8"
env_logger = "0.10"
log = "0.4"
num-traits = "0.2"
