[package]
name = "render"
version = "0.1.0"
edition = "2021"
publish = false

[dependencies]
rgb = "*"
smart-leds = "*"
smart-leds-trait = "*"
rand = "0.8"
serde = { version = "*", features = ["derive"] }
serde_json = "*"
num-traits = "*"
lazy_static = "*"
console_error_panic_hook = "*"
wasm-bindgen = "*"
web-sys = { version = "*", features = ["Window", "Document", "Element", "HtmlCanvasElement", "CanvasRenderingContext2d", "console"] }
esp-idf-sys = "*"
esp-idf-hal = "*"
esp-idf-svc = "*"
esp_idf_logger = "*"
ws2812-esp32-rmt-driver = "*"
