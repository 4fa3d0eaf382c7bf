[package]
name = "pigeon"
version = "0.1.0"
edition = "2021"
publish = false

[dependencies]
anyhow = "1"
gio = "*"
glib = "*"
html2text = "*"
percent-encoding = "2"
serde = { version = "1", features = ["derive"] }
serde_json = "1"
tracing = "0.1"
tracing-subscriber = { version = "0.3", features = ["env-filter"] }
