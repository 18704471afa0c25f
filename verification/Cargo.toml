[package]
name = "cookie_refuser"
version = "0.1.0"
edition = "2021"
publish = false

[dependencies]
wasm-bindgen = "0.2"
wasm-bindgen-futures = "0.4"
web-sys = { version = "0.3", features = ["console", "Document", "Element", "Event", "EventTarget", "HtmlCollection", "HtmlElement", "MutationObserver", "MutationObserverInit", "MutationRecord", "Node", "NodeList", "ShadowRoot", "Storage", "Window"] }
serde = { version = "1", features = ["derive"] }
serde_json = "1"
serde-wasm-bindgen = "0.6"
reqwest = { version = "0.12", default-features = false, features = ["json"] }
