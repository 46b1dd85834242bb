[package]
name = "webpub"
version = "0.1.0"
edition = "2021"
publish = false

[dependencies]
blake3 = "1"
fastcdc = "3"
hex = "0.4"
rand = "0.8"
axum = "0.7"
clap = { version = "4", features = ["derive"] }
tokio = { version = "1", features = ["rt-multi-thread", "macros", "net", "time"] }
tokio-tungstenite = "0.21"
futures-util = "0.3"
mime_guess = "2"
