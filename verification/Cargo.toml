[package]
name = "space_station_god_game"
version = "0.1.0"
edition = "2021"
publish = false

[dependencies]
oorandom = "11"
uuid = { version = "1", features = ["v4"] }
getrandom = "0.2"
ggez = "0.6"
glam = { version = "*", features = ["mint", "serde"] }
keyframe = "1"
mint = "0.5"
serde = { version = "1", features = ["derive"] }
serde_cbor = "0.11"
chrono = "0.4"
rand = "0.8"
num = "0.4"
