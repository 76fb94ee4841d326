[package]
name = "seat_planner"
version = "0.1.0"
edition = "2021"
publish = false

[dependencies]
eframe = "0.31"
serde = { version = "1", features = ["derive"] }
log = "0.4"
wasm-bindgen = "0.2"
wasm-bindgen-futures = "0.4"
web-sys = { version = "0.3", features = ["Window", "Document", "Element", "HtmlCanvasElement"] }
