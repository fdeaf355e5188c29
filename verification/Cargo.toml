[package]
name = "vc_native"
version = "0.1.0"
edition = "2021"
publish = false

[dependencies]
anyhow = "=1.0.104"
clap = { version = "=4.6.7", features = ["derive"] }
ctrlc = "=3.5.2"
eframe = { version = "=0.37.0", default-features = false, features = ["glow", "x11"] }
hound = "=3.5.1"
ndarray = "=0.17.2"
ndarray-npy = "=0.10.0"
ort = { version = "=2.0.0-rc.15", default-features = false, features = ["std", "ndarray", "load-dynamic", "webgpu"] }
pipewire = "=0.9.2"
rand = "=0.9.5"
rand_pcg = "=0.9.0"
realfft = "=3.5.1"
rtrb = "=0.3.6"
rubato = "=0.16.2"
serde = { version = "=1.0.229", features = ["derive"] }
serde_json = "=1.0.154"
