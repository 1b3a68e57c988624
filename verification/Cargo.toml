[package]
name = "astar_grid"
version = "0.1.0"
edition = "2021"
publish = false

[dependencies]
yew = "=0.19.3"
gloo = "=0.8.1"
web-sys = { version = "=0.3.106", features = ["HtmlInputElement"] }
weblog = "=0.3.0"
chrono = "=0.4.45"
wasm-bindgen = "=0.2.129"
