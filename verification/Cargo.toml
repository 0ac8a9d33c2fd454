[package]
name = "trace_engine"
version = "0.1.0"
edition = "2021"
publish = false

[dependencies]
axum = "=0.6.20"
axum-extra = { version = "=0.7.7", features = ["protobuf"] }
chrono = { version = "=0.4.45", features = ["serde"] }
eframe = { version = "0.22", default-features = false, features = ["default_fonts", "glow"] }
egui_dock = "0.6"
egui_extras = "0.22"
prost = "=0.11.9"
serde = { version = "=1.0.229", features = ["derive"] }
serde_json = "=1.0.154"
tokio = { version = "=1.54.1", features = ["macros", "rt-multi-thread", "sync"] }
tracing = "=0.1.44"
tracing-subscriber = "=0.3.23"
