[package]
name = "harken"
version = "0.4.2"
edition = "2021"
publish = false

[dependencies]
chrono = { version = "0.4", default-features = false, features = ["std"] }
regex = "1"
clap = { version = "4", features = ["derive"] }
serde = { version = "1", features = ["derive"] }
serde_json = "1"
glob = "0.3"
zip = { version = "*", default-features = false, features = ["deflate"] }
ureq = "2"
indicatif = "*"
ogg = "*"
opus = "*"
symphonia = { version = "*", features = ["all"] }
rubato = "*"

[dev-dependencies]
tempfile = "3"
