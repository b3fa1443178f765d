[package]
name = "pdf_pages"
version = "0.1.0"
edition = "2021"
publish = false

[dependencies]
lopdf = "*"
serde = { version = "1", features = ["derive"] }
walkdir = "2"
