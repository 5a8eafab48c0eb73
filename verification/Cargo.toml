[package]
name = "tile_solver"
version = "0.1.0"
edition = "2021"
publish = false

[dependencies]
clap = { version = "4", features = ["derive"] }
colored = "2"
crossterm = "0.27"
petgraph = "0.6"
rayon = "1"
