[package]
name = "image_of_images"
version = "0.1.0"
edition = "2021"
publish = false

[dependencies]
anyhow = "1"
console = "0.15"
crossbeam = "0.8"
dotenv = "0.15"
eframe = { version = "0.17", features = ["persistence"] }
egui = "0.17"
env_logger = "0.9"
glob = "0.3"
image = { version = "0.24", default-features = false, features = ["png", "jpeg"] }
log = "0.4"
nfd = "0.0.4"
rand = "0.8"
rayon = "1"
structopt = "0.3"
