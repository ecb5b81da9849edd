[package]
name = "kindling"
version = "0.2.0"
edition = "2021"
publish = false

[dependencies]
regex = "=1.13.1"
quick-xml = "=0.37.5"
image = { version = "=0.25.6", default-features = false, features = ["jpeg", "png", "gif", "webp", "bmp", "tiff"] }
zip = { version = "=2.6.1", default-features = false, features = ["deflate"] }
clap = { version = "=4.6.7", features = ["derive"] }
rayon = "=1.12.0"
