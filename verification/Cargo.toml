[package]
name = "wordle"
version = "0.1.0"
edition = "2021"
publish = false

[dependencies]
anyhow = "*"
clap = { version = "*", features = ["derive"] }
directories = "*"
humantime = "*"
indicatif = "*"
itertools = "*"
konst = "*"
pluralizer = "*"
rayon = "*"
rs-wordle-solver = "*"
zarrs = "*"
