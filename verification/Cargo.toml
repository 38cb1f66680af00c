[package]
name = "nested_params"
version = "0.1.0"
edition = "2021"
publish = false

[dependencies]
form_urlencoded = "*"
serde = { version = "*", features = ["derive"] }
axum = "*"
tokio = { version = "*", features = ["fs", "io-util", "rt"] }
multer = "*"
tempfile = "*"
async-trait = "*"
