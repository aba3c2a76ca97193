[package]
name = "meeting_rooms"
version = "0.1.0"
edition = "2021"

[dependencies]
chrono = "0.4"

[dev-dependencies]
rand = "0.8"
