[package]
name = "timetracker"
version = "1.0.0"
edition = "2021"
publish = false

[dependencies]
regex = "1"
clap = "4"
csv = "1"
env_logger = "*"
log = "0.4"
