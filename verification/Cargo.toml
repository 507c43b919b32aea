[package]
name = "battlesnake"
version = "0.1.0"
edition = "2021"
publish = false

[dependencies]
pathfinding = "*"
rand = "0.8"
serde_json = "1"
log = "0.4"
