[package]
name = "vegosh"
version = "0.1.0"
edition = "2021"
publish = false

[dependencies]
rapidhash = "*"
rand = "*"
hashbrown = "*"
