[package]
name = "captain_crunch"
version = "0.1.0"
edition = "2021"
publish = false

[dependencies]
regen = "*"
clap = "3"
serde = { version = "1", features = ["derive"] }
serde_yaml = "*"
rayon = "1"
pbr = "*"

[dev-dependencies]
permutator = "*"
