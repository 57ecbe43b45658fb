[package]
name = "kanske-lib"
version = "0.1.0"
edition = "2021"
publish = false

[dependencies]
tokio = { version = "1", features = ["macros", "rt-multi-thread"] }
wayland-client = "*"
wayland-protocols-wlr = { version = "*", features = ["client"] }
