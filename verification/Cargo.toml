[package]
name = "onewire_temps"
version = "0.1.0"
edition = "2021"
publish = false

[dependencies]
axum = "*"
parking_lot = "*"
prometheus = "*"
serde = { version = "*", features = ["derive"] }
tokio = { version = "*", features = ["rt-multi-thread", "macros", "time", "net"] }
