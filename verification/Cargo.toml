[package]
name = "generative_art"
version = "0.1.0"
edition = "2021"
publish = false

[dependencies]
image = { version = "*", default-features = false }
line_drawing = "*"
gif = "*"
minimp4 = "*"
openh264 = "*"
wasm-bindgen = "*"
web-time = "*"
web-sys = { version = "*", features = ["Window", "Document", "Element", "HtmlCanvasElement", "CanvasRenderingContext2d", "ImageData", "console"] }
