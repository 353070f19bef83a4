[package]
name = "pog_bilder"
version = "0.1.0"
edition = "2021"
publish = false

[dependencies]
bytes = "1"
prost = "0.12"
prost-types = "0.12"
anyhow = "1"
clap = { version = "4", features = ["derive"] }
tokio = { version = "1", features = ["full"] }
tokio-rusqlite = "0.4"
rusqlite = { version = "0.29", features = ["bundled"] }
