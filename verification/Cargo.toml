[package]
name = "conway_life"
version = "0.1.0"
edition = "2021"
publish = false

[dependencies]
env_logger = "=0.3.5"
getopts = "=0.2.24"
log = "=0.3.9"
rand = "=0.3.23"
rustbox = "=0.7.2"
time = "=0.1.45"
