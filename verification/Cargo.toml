[package]
name = "klondike"
version = "0.1.0"
edition = "2021"
publish = false

[dependencies]
arrayvec = "0.7"
rand = "0.8"
colored = "2"
serde = { version = "1", features = ["derive"] }
