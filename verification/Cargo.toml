[package]
name = "table-beave-rs"
version = "0.1.0"
edition = "2021"
publish = false

[dependencies]
leptos = { version = "=0.8.23", features = ["csr"] }
pulldown-cmark = { version = "0.13", default-features = false, features = ["html"] }
web-sys = { version = "=0.3.107", features = ["Window", "Navigator", "Clipboard"] }
