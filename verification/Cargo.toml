[package]
name = "pend"
version = "0.1.0"
edition = "2021"
publish = false

[dependencies]
console_error_panic_hook = "=0.1.7"
eframe = { version = "=0.17.0", features = ["persistence"] }
egui = { version = "=0.17.0", features = ["persistence"] }
egui_extras = { version = "=0.17.0", features = ["image"] }
epub = "=1.2.4"
glob = "=0.3.4"
image = { version = "=0.24.9", default-features = false, features = ["png", "jpeg"] }
serde = { version = "=1.0.229", features = ["derive"] }
tracing-wasm = "=0.2.1"

[dev-dependencies]
regex = "=1.13.1"
