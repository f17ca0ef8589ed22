[package]
name = "souporcell"
version = "0.1.0"
edition = "2021"
publish = false

[dependencies]
clap = "2.33"
hashbrown = "0.9"
rand = "0.7"
statrs = { version = "*", default-features = false }
