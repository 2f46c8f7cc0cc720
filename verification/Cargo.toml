[package]
name = "tungsten_core"
version = "0.27.0"
edition = "2021"
publish = false

[dependencies]
anyhow = "1"
glam = "*"
log = "0.4"
serde = { version = "1", features = ["derive"] }
serde_json = "1"
symphonia = "*"
thiserror = "*"
