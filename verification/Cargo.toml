[package]
name = "ray_cast"
version = "0.1.0"
edition = "2021"
publish = false

[dependencies]
env_logger = "0.11"
log = "0.4"
macroquad = "0.4"
