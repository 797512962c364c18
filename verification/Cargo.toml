[package]
name = "set_game"
version = "0.1.0"
edition = "2021"
publish = false

[dependencies]
rand = "=0.10.3"
rand_pcg = "=0.10.2"
bevy = { version = "=0.19.1", default-features = false }
