[package]
name = "kist_core"
version = "0.1.0"
edition = "2021"
publish = false

[dependencies]
zip = "*"
serde = { version = "1", features = ["derive"] }
thiserror = "*"
eframe = { version = "*", default-features = false, features = ["default_fonts", "glow", "x11"] }
rfd = { version = "*", default-features = false, features = ["xdg-portal", "tokio"] }
