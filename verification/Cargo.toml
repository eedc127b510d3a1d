[package]
name = "ffp"
version = "0.1.0"
edition = "2021"
publish = false

[dependencies]
base64 = "0.22"
crossterm = "0.28"
dirs = "6"
image = { version = "0.25", default-features = false, features = ["png", "jpeg", "gif", "webp", "bmp", "ico"] }
libc = "0.2"
notify-rust = "4"
ratatui = "0.29"
syntect = { version = "5", default-features = false, features = ["default-fancy"] }
