[package]
name = "micapp"
version = "0.1.0"
edition = "2021"
publish = false

[dependencies]
auto-launch = "0.5"
eframe = { version = "0.29", default-features = false, features = ["glow", "x11"] }
egui = { version = "0.29", default-features = false }
ringbuf = "0.4"
serde = { version = "1", features = ["derive"] }
toml = "0.8"
