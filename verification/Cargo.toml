[package]
name = "py-doc"
version = "0.1.0"
edition = "2021"
publish = false

[dependencies]
anyhow = "=1.0.104"
clap = { version = "=4.6.7", features = ["derive"] }
pulldown-cmark = "=0.13.6"
rayon = "=1.12.0"
regex = "=1.13.1"
serde = { version = "=1.0.229", features = ["derive"] }
serde_json = "=1.0.154"
tera = "=2.4.0"
ureq = "=3.5.1"
walkdir = "=2.5.0"
