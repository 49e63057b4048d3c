[package]
name = "serverbuf"
version = "0.1.0"
edition = "2021"
publish = false

[dependencies]
time = "=0.1.45"
websocket = { version = "=0.27.1", default-features = false, features = ["sync"] }
