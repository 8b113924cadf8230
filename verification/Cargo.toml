[package]
name = "battleship_solver"
version = "0.1.0"
edition = "2021"
publish = false

[dependencies]
rand = "0.8"
rayon = "1.8"
eframe = { version = "0.27", default-features = false, features = ["glow"] }
