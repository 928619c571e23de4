[package]
name = "printdiff"
version = "0.1.0"
edition = "2021"
publish = false

[dependencies]
base64 = "0.22"
dirs = "*"
image = { version = "0.25", default-features = false, features = ["png", "jpeg", "tiff"] }
natord = "1"
open = "5"
psd = "0.3"
rayon = "1"
serde = { version = "1", features = ["derive"] }
