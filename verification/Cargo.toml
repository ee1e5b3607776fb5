[package]
name = "tagd"
version = "0.1.0"
edition = "2021"
publish = false

[dependencies]
wildmatch = "2"
anyhow = "1"
clap = { version = "4", features = ["derive"] }
lofty = "*"
magic = "0.16"
nix = { version = "0.30", features = ["fanotify", "fs"] }
rusqlite = { version = "*", features = ["bundled"] }
serde = { version = "1", features = ["derive"] }
serde_json = "1"
kamadak-exif = "*"
image = "*"
magika = "*"
