[package]
name = "barkus"
version = "0.1.0"
edition = "2021"
publish = false

[dependencies]
rand = "=0.10.3"
serde = { version = "=1.0.229", features = ["derive"] }
serde_json = "=1.0.154"
clap = { version = "=4.6.7", features = ["derive"] }
hex = "=0.4.3"
opener = "=0.9.0"
html5ever = "=0.39.0"
markup5ever_rcdom = "=0.39.0"
cssparser = "=0.38.0"
