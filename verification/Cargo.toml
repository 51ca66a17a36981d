[package]
name = "sch_engine"
version = "0.1.0"
edition = "2021"
publish = false

[dependencies]
uuid = { version = "1", features = ["v4", "v5"] }
serde_json = { version = "1", features = ["preserve_order"] }
serde = { version = "1", features = ["derive"] }
regex = "1"
indexmap = "2"
anyhow = "1"
tempfile = "3"
kiutils_kicad = "*"
