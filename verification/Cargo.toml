[package]
name = "rustdown_viewer"
version = "0.2.0"
edition = "2021"
publish = false

[dependencies]
pulldown-cmark = { version = "0.12", default-features = false }
dark-light = "1"
serde = { version = "1", features = ["derive"] }
serde_json = "1"
dirs = "5"
open = "5"
