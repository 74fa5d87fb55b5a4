[package]
name = "kawa"
version = "0.1.0"
edition = "2021"
publish = false

[dependencies]
httparse = "1"
url = "2"
serde = { version = "1", features = ["derive"] }
serde_json = "1"
toml = "0.8"
rouille = "3"
amy = "*"
reqwest = { version = "0.12", default-features = false, features = ["blocking", "json"] }
log = "0.4"
env_logger = "*"
slog = "2"
futures = "0.1"
futures-cpupool = "*"
libc = "0.2"
error-chain = "*"
shout = "*"
ffmpeg = "*"
ffmpeg-sys = "*"
