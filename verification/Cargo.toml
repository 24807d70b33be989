[package]
name = "lru_time_cache"
version = "0.1.0"
edition = "2021"
publish = false

[dependencies]
fake_clock = "0.3"

[dev-dependencies]
rand = "0.8"
