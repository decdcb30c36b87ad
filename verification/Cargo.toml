[package]
name = "fractal_mind"
version = "0.1.0"
edition = "2021"
publish = false

[dependencies]
rand = "*"
tokio = { version = "*", features = ["macros", "rt-multi-thread", "time", "sync"] }
reqwest = { version = "*", default-features = false, features = ["json"] }
serde = { version = "*", features = ["derive"] }
serde_json = "*"
walkdir = "*"
image = "*"
minifb = "*"
