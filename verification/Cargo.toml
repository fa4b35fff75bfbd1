[package]
name = "pkgtools"
version = "0.1.0"
edition = "2021"
publish = false

[dependencies]
pathfinding = "=4.16.0"
url = "=2.5.8"
unicode-width = "=0.2.3"
diff = "=0.1.13"
regex = "=1.13.1"
anyhow = "=1.0.104"
clap = { version = "=4.6.7", features = ["derive"] }
serde = { version = "=1.0.229", features = ["derive"] }
serde_json = "=1.0.154"
yansi = "=1.0.1"
ureq = { version = "=3.5.1", features = ["json"] }
size = "0.4"
chrono = "0.4"
terminal_size = "0.4"
