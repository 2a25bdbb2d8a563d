[package]
name = "voice"
version = "0.1.0"
edition = "2021"
publish = false

[dependencies]
bincode = "=1.3.3"
candle-core = "=0.11.1"
candle-nn = "=0.11.1"
chrono = "=0.4.45"
image = { version = "=0.25.10", default-features = false, features = ["png"] }
ndarray = { version = "=0.17.2", features = ["serde"] }
rand = "=0.8.8"
rayon = "=1.12.0"
rustfft = "=6.4.1"
serde = { version = "=1.0.229", features = ["derive"] }
symphonia = { version = "=0.6.1", features = ["mp3"] }
wasm-bindgen = "=0.2.130"
