[package]
name = "html_build"
version = "0.1.0"
edition = "2021"
publish = false

[dependencies]
html5ever = "=0.39.0"
markup5ever_rcdom = "=0.39.0"
regex = "=1.13.1"
url = "=2.5.8"
tokio = { version = "=1.54.1", features = ["io-std", "io-util", "rt", "macros", "fs"] }
delegate = "=0.13.5"
