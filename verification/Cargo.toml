[package]
name = "mojiokoshi"
version = "0.1.0"
edition = "2021"
publish = false

[dependencies]
eframe = { version = "0.37", default-features = false, features = ["glow", "x11", "default_fonts"] }
rfd = { version = "0.17", default-features = false }
serde = { version = "1", features = ["derive"] }
serde_json = "1"
symphonia = "0.6"
whisper-rs = "0.16"
