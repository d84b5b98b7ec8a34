[package]
name = "chunks"
version = "0.1.0"
edition = "2021"
publish = false

[dependencies]
arrayvec = "=0.7.8"
bevy = { version = "=0.16.1", default-features = false }
bytemuck = { version = "=1.25.2", features = ["derive"] }
