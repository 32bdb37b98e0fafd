[package]
name = "waterfall"
version = "0.1.0"
edition = "2021"
publish = false

[dependencies]
axum = { version = "0.7", features = ["ws"] }
mlx-sys = "*"
num-complex = "0.4"
rand = "0.8"
rayon = "1"
reqwest = { version = "0.12", default-features = false, features = ["json"] }
rustfft = "6"
serde = { version = "1", features = ["derive"] }
serde_json = "1"
socket2 = "0.5"
tokio = { version = "1", features = ["full"] }
tower-http = { version = "0.5", features = ["fs"] }
