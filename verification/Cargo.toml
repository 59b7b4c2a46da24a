[package]
name = "papercraft"
version = "0.1.0"
edition = "2021"
publish = false

[dependencies]
anyhow = "1"
axum = { version = "*", features = ["multipart"] }
base64 = "*"
cgmath = "*"
clap = { version = "4", features = ["derive"] }
flate2 = "1"
image = { version = "*", default-features = false, features = ["png"] }
lopdf = "*"
serde = { version = "1", features = ["derive"] }
serde_json = "1"
slotmap = "1"
time = "*"
tokio = { version = "1", features = ["rt-multi-thread", "macros", "net"] }
tower-http = { version = "*", features = ["cors"] }

[dev-dependencies]
regex = "1"
