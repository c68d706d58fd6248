[package]
name = "hrdf_routing_engine"
version = "0.1.0"
edition = "2021"
publish = false

[dependencies]
axum = "*"
chrono = { version = "*", features = ["serde"] }
contour = "*"
hrdf-parser = "*"
kd-tree = "*"
log = "*"
rayon = "*"
rustc-hash = "*"
serde = { version = "*", features = ["derive"] }
simple_logger = "*"
tokio = { version = "*", features = ["macros", "net", "rt-multi-thread"] }
tower-http = { version = "*", features = ["cors"] }
typenum = "*"
