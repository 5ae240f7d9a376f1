[package]
name = "daily_puzzles"
version = "0.1.0"
edition = "2021"
publish = false

[dependencies]
z3 = "*"
miette = { version = "7", features = ["fancy"] }
tracing = "0.1"
tracing-subscriber = { version = "0.3", features = ["env-filter"] }

[dev-dependencies]
nom = "8"
