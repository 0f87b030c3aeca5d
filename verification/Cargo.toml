[package]
name = "puzzle_games"
version = "0.1.0"
edition = "2021"
publish = false

[dependencies]
getrandom = "0.3"
serde = { version = "1", features = ["derive"] }
serde_json = "1"
wasm-bindgen = "0.2"
js-sys = "0.3"
web-sys = { version = "0.3", features = ["Window", "Storage"] }
