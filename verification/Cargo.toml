[package]
name = "dynamic_prm"
version = "0.1.0"
edition = "2021"
publish = false

[dependencies]
rand = "0.8"
rand_chacha = "0.3"
pathfinding = "4"
tokio = { version = "1", features = ["rt", "rt-multi-thread", "macros", "net", "time"] }
plotters = "0.3"
