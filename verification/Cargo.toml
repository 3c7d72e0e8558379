[package]
name = "stickoverlay"
version = "0.1.0"
edition = "2021"
publish = false

[dependencies]
anyhow = "1"
blackbox-log = "=0.4.3"
clap = { version = "4", features = ["derive"] }
glob = "0.3"
rayon = "1"
tiny-skia = "=0.12.0"
