[package]
name = "got"
version = "0.1.0"
edition = "2021"
publish = false

[dependencies]
anyhow = "1"
chrono = "0.4"
clap = { version = "4", features = ["derive"] }
git2 = { version = "*", default-features = false }
globset = "0.4"
indicatif = "*"
plotters = "*"
rayon = "1"
serde = { version = "1", features = ["derive"] }
serde_json = "1"
serde_yaml_ng = "*"
sha2 = "0.10"
