[package]
name = "fortran704"
version = "0.1.0"
edition = "2021"
publish = false

[dependencies]
console_error_panic_hook = "0.1"
console_log = "1"
log = "0.4"
sycamore = "0.8"
web-sys = { version = "0.3", features = ["Document", "Element", "Window"] }
