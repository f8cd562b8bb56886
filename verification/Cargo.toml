[package]
name = "mino_dice_prob_calc"
version = "0.1.0"
edition = "2021"
publish = false

[dependencies]
rand = "0.9"
wasm-bindgen = "0.2"
js-sys = "0.3"
web-sys = { version = "0.3", features = ["Window", "Document", "Element", "Event", "EventTarget", "HtmlCanvasElement", "HtmlInputElement", "HtmlElement", "MouseEvent", "DomTokenList", "Node", "console"] }
plotters = { version = "0.3", default-features = false, features = ["all_series", "all_elements"] }
plotters-canvas = "0.3"
serde = { version = "1", features = ["derive"] }
serde-wasm-bindgen = "0.6"
axum = "0.8"
tokio = { version = "1", features = ["macros", "rt-multi-thread", "net"] }
tower-http = { version = "0.6", features = ["fs"] }
rusqlite = { version = "0.32", features = ["bundled"] }
console_error_panic_hook = "0.1"
