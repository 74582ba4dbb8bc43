[package]
name = "gma"
version = "0.1.0"
edition = "2021"
publish = false

[dependencies]
xz2 = "0.1"
serde = { version = "1", features = ["derive"] }
serde_json = "1"
rayon = "1"
walkdir = "2"
path-slash = "0.2"
image = { version = "0.24", default-features = false, features = ["png", "jpeg", "gif"] }
