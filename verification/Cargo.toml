[package]
name = "player_graph"
version = "0.1.0"
edition = "2021"
publish = false

[dependencies]
csv = "1"
plotlib = "0.5"
serde = { version = "1", features = ["derive"] }
