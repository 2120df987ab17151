[package]
name = "har_viewer"
version = "0.1.0"
edition = "2021"
publish = false

[dependencies]
serde = { version = "1", features = ["derive"] }
serde_json = "1"
url = "2"
thiserror = "2"
leptos = { version = "0.7", features = ["csr"] }
web-sys = { version = "0.3", features = ["DataTransfer", "Document", "DomRect", "DragEvent", "Element", "Event", "File", "FileList", "HtmlInputElement", "KeyboardEvent", "MouseEvent", "Storage", "Window"] }
gloo-file = { version = "0.3", features = ["futures"] }
gloo-timers = { version = "0.3", features = ["futures"] }
wasm-bindgen-futures = "0.4"
console_error_panic_hook = "0.1"
