[package]
name = "netcode"
version = "0.1.0"
edition = "2021"
publish = false

[dependencies]
anyhow = "*"
axum = "*"
chrono = "*"
macroquad = "*"
rust_socketio = "*"
serde = { version = "*", features = ["derive"] }
serde_json = "*"
socketioxide = "*"
thiserror = "*"
tokio = { version = "*", features = ["macros", "rt-multi-thread", "net", "time"] }
uuid = { version = "*", features = ["v4"] }
