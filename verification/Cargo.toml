[package]
name = "airhorizon"
version = "0.1.0"
edition = "2021"
publish = false

[dependencies]
bytemuck = { version = "=1.25.2", features = ["derive"] }
csv = "=1.4.0"
earcutr = "=0.4.3"
flate2 = "=1.1.10"
fontdue = "=0.9.5"
geozero = { version = "=0.14.0", default-features = false, features = ["with-mvt"] }
lyon = "=1.0.19"
osmpbf = "=0.3.8"
pollster = "=0.4.0"
prost = "=0.11.9"
rstar = "=0.12.2"
rusqlite = { version = "=0.32.1", features = ["bundled"] }
thiserror = "=2.0.21"
tiff = "=0.9.1"
walkdir = "=2.5.0"
wgpu = "=23.0.1"
winit = "=0.30.13"
zip = { version = "=2.6.1", default-features = false, features = ["deflate"] }
