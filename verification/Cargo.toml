[package]
name = "kamoshi"
version = "0.1.0"
edition = "2021"
publish = false

[dependencies]
camino = "=1.2.6"
chrono = "=0.4.45"
emojis = "=0.9.1"
regex-syntax = "=0.8.11"
comrak = { version = "=0.59.0", default-features = false, features = ["shortcodes"] }
serde = { version = "=1.0.229", features = ["derive"] }
serde_json = "=1.0.154"
thiserror = "=2.0.21"
clap = { version = "=4.6.7", features = ["derive"] }
glob = "=0.3.4"
hauchiwa = { version = "=0.23.0", features = ["minijinja", "sitemap"] }
minijinja = "=3.0.5"
rss = "=2.1.2"
hayagriva = "=0.10.1"
hypertext = "=0.12.1"
pulldown-latex = "=0.8.0"
