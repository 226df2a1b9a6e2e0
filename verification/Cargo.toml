[package]
name = "array_engine"
version = "0.1.0"
edition = "2021"
publish = false

[dependencies]
gloo = "0.11"
leptos = { version = "0.6", features = ["csr"] }
leptos_meta = { version = "0.6", features = ["csr"] }
leptos_router = { version = "0.6", features = ["csr"] }
wasm-bindgen = "0.2"
web-sys = { version = "0.3", features = ["Document", "Element", "Event", "EventTarget", "HtmlTextAreaElement", "InputEvent", "KeyboardEvent"] }
yew = { version = "0.21", features = ["csr"] }
