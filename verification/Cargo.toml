[package]
name = "planar_graphs"
version = "0.1.0"
edition = "2021"
publish = false

[dependencies]
fastrand = "2"
good_lp = { version = "1", default-features = false, features = ["highs"] }
rustworkx-core = "*"
serde = { version = "1", features = ["derive"] }
serde_json = "1"
