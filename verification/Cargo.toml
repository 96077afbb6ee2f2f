[package]
name = "blizzard_basin"
version = "0.1.0"
edition = "2021"
publish = false

[dependencies]
pathfinding = "4"
clap = { version = "4", features = ["derive"] }
