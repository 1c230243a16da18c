[package]
name = "turboquant"
version = "0.1.0"
edition = "2021"
publish = false

[dependencies]
rand = "*"
rayon = "1"
serde = { version = "1", features = ["derive"] }
serde_json = "1"
bincode = "1"
ndarray = "0.16"
ndarray-npy = "0.9"
memmap2 = "0.9"
axum = "0.7"
tokio = { version = "1", features = ["macros", "rt-multi-thread", "net"] }
tower-http = { version = "0.5", features = ["cors"] }
