[package]
name = "gt_planner"
version = "0.1.0"
edition = "2021"
publish = false

[dependencies]
axum = "0.8"
bytemuck = { version = "1", features = ["derive"] }
clap = { version = "4", features = ["derive"] }
good_lp = { version = "1", default-features = false, features = ["microlp"] }
log = "0.4"
pollster = "0.4"
serde = { version = "1", features = ["derive"] }
serde_json = "1"
thiserror = "2"
tokio = { version = "1", features = ["rt-multi-thread", "macros", "net"] }
tower-http = { version = "0.6", features = ["fs", "cors"] }
wgpu = "27"
