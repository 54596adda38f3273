[package]
name = "sub_font_loader"
version = "0.1.0"
edition = "2021"
publish = false

[dependencies]
anyhow = "1"
argh = "*"
csv = "1"
ctrlc = "*"
encoding_rs = "*"
ttf-parser = "*"
unicode-normalization = "*"
walkdir = "2"
serde = { version = "1", features = ["derive"] }
toml = "*"
tempfile = "3"
rusqlite = { version = "*", features = ["bundled"] }
compress-tools = "*"
windows-sys = { version = "*", features = ["Win32_Foundation", "Win32_Graphics_Gdi", "Win32_UI_WindowsAndMessaging"] }
winsafe = { version = "*", features = ["gui", "shell"] }
