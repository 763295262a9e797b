[package]
name = "minecraft_world_optimizer"
version = "1.0.0"
edition = "2021"
publish = false

[dependencies]
flate2 = "1"
lz4_flex = "0.11"
clap = { version = "4", features = ["derive"] }
csv = "1"
indicatif = "0.17"
rayon = "1"
serde = { version = "1", features = ["derive"] }
thiserror = "1"
