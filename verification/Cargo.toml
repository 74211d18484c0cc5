[package]
name = "contact_sheet"
version = "0.1.0"
edition = "2021"
publish = false

[dependencies]
anyhow = "1"
clap = { version = "4", features = ["derive"] }
ffmpeg-next = "*"
filetime = "0.2"
once_cell = "1"
opencv = "*"
rayon = "1"
rusttype = "0.9"
tracing = "0.1"
tracing-subscriber = "0.3"
