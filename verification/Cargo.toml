[package]
name = "saltglass_gen"
version = "0.1.0"
edition = "2021"
publish = false

[dependencies]
rand = "0.8"
rand_chacha = "0.3"
serde = { version = "1", features = ["derive"] }
serde_json = "1"
once_cell = "1"
crossterm = "0.28"
bracket-pathfinding = "0.8"
