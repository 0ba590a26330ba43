[package]
name = "toy_engine"
version = "0.1.0"
edition = "2021"
publish = false

[dependencies]
getopts = "0.2"
image = { version = "*", default-features = false, features = ["png"] }
winapi = { version = "0.3", features = ["winuser", "wingdi", "libloaderapi", "windef", "minwindef", "basetsd", "winnt"] }
