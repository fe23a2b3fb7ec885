[package]
name = "shaforce"
version = "0.1.0"
edition = "2021"
publish = false

[dependencies]
clap = { version = "4", features = ["derive"] }
crossbeam = "0.8"
rayon = "1"

[dev-dependencies]
sha1 = "0.10"
