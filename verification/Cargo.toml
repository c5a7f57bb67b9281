[package]
name = "drip"
version = "0.1.0"
edition = "2021"
publish = false

[dependencies]
clap = { version = "*", features = ["derive"] }
colored = "*"
hashbrown = "*"
itertools = "*"
strip-ansi-escapes = "*"
