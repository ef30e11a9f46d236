[package]
name = "pc-health-cleaner"
version = "0.1.0"
edition = "2021"
publish = false

[dependencies]
blake3 = "=1.8.7"
chrono = "=0.4.45"
eframe = { version = "=0.29.1", default-features = false, features = ["default_fonts", "glow", "x11"] }
home = "=0.5.12"
rayon = "=1.12.0"
reqwest = { version = "=0.12.28", default-features = false, features = ["blocking", "json", "rustls-tls"] }
semver = "=1.0.28"
serde = { version = "=1.0.229", features = ["derive"] }
serde_json = "=1.0.154"
sysinfo = { version = "0.29", default-features = false }
walkdir = "=2.5.0"
zip = { version = "=2.6.1", default-features = false, features = ["deflate"] }
