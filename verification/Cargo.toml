[package]
name = "corporalyser"
version = "0.1.0"
edition = "2021"
publish = false

[dependencies]
unicode-segmentation = "*"
rayon = "*"
ring = "*"
data-encoding = "*"
serde = { version = "*", features = ["derive"] }
serde_json = "*"
indexmap = { version = "*", features = ["serde"] }
clap = { version = "*", features = ["derive"] }
eyre = "*"
chrono = { version = "*", features = ["serde"] }
semver = { version = "*", features = ["serde"] }
url = { version = "*", features = ["serde"] }
flate2 = "*"
tar = "*"
reqwest = { version = "*", default-features = false, features = ["blocking", "rustls-tls"] }
humantime = "*"
linya = "*"
