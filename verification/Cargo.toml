[package]
name = "playbox"
version = "0.1.0"
edition = "2021"
publish = false

[dependencies]
slotmap = "1"
smallvec = "1"
serde = { version = "1", features = ["derive"] }
rand = "0.9"
anyhow = "1"
log = "0.4"
