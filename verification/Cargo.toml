[package]
name = "koharu"
version = "0.1.0"
edition = "2021"
publish = false

[dependencies]
anyhow = "=1.0.104"
async-trait = "=0.1.92"
base64 = "=0.22.1"
blake3 = "=1.8.7"
fast_image_resize = { version = "=5.5.0", features = ["image"] }
futures = "=0.3.34"
image = { version = "=0.25.10", default-features = false, features = ["png", "jpeg", "webp"] }
imageproc = { version = "=0.25.1", default-features = false }
parking_lot = "=0.12.5"
rayon = "=1.12.0"
reqwest = { version = "=0.12.28", default-features = false, features = ["json", "stream"] }
revision = "=0.30.0"
serde = { version = "=1.0.229", features = ["derive"] }
serde_json = { version = "=1.0.154", features = ["preserve_order"] }
tokio = { version = "=1.54.1", features = ["rt", "time", "macros", "sync", "fs"] }
tracing = "=0.1.44"
uuid = { version = "=1.29.0", features = ["v4", "serde"] }
