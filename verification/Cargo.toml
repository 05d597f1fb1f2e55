[package]
name = "dasp"
version = "0.1.0"
edition = "2021"
publish = false

[dependencies]
clap = { version = "4", features = ["derive"] }
clingo = "*"
fallible-iterator = "0.2"
humantime = "2"
lazy_static = "1"
log = "0.4"
logos = "0.12"
pretty_env_logger = "*"
rand = { version = "0.8", features = ["small_rng"] }
thiserror = "1"
