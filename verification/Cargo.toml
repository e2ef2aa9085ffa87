[package]
name = "courses_data"
version = "0.1.0"
edition = "2021"
publish = false

[dependencies]
brotli = "*"
flate2 = "*"
json = "*"
log = "*"
simple_logger = "*"
console_log = "*"
wasm-bindgen = "*"
wasm-bindgen-futures = "*"
web-time = "*"
bm25 = { version = "*", default-features = false }
