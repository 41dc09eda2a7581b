[package]
name = "dupscanner"
version = "0.1.0"
edition = "2021"
publish = false

[dependencies]
anyhow = "=1.0.104"
chrono = "=0.4.45"
clap = { version = "=4.6.7", features = ["derive"] }
colored = "=3.1.1"
crossterm = "=0.28.1"
ctrlc = "=3.5.2"
dirs = "=6.0.0"
glob = "=0.3.4"
humansize = "=2.1.3"
image = { version = "=0.25.10", default-features = false, features = ["png", "jpeg", "gif", "webp", "bmp", "tiff", "ico", "qoi"] }
md5 = "=0.7.0"
open = "=5.4.5"
rand = "=0.8.8"
ratatui = "=0.29.0"
ratatui-image = { version = "4", default-features = false, features = ["crossterm"] }
rusqlite = { version = "=0.31.0", features = ["bundled"] }
serde = { version = "=1.0.229", features = ["derive"] }
serde_json = "=1.0.154"
sha2 = "=0.10.9"
trash = "=5.2.9"
walkdir = "=2.5.0"

