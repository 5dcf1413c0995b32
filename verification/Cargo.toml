[package]
name = "hl_blobox"
version = "0.1.0"
edition = "2021"
publish = false

[dependencies]
aviutl2 = "*"
serde = { version = "1", features = ["derive"] }
serde_json = "1"
windows = { version = "*", features = ["Win32_Foundation", "Win32_Graphics_Gdi", "Win32_UI_Controls_Dialogs"] }
