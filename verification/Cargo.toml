[package]
name = "apm-partition-forensic"
version = "0.4.0"
edition = "2021"
publish = false

[dependencies]
forensicnomicon = "1"
forensic-vfs = "0.3"
serde = { version = "1", features = ["derive"] }
serde_json = "1"
