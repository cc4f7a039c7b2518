[package]
name = "obs_gamepad"
version = "0.1.0"
edition = "2021"
publish = false

[dependencies]
tiny-skia = "0.11"
ab_glyph = "0.2"
tiny_http = "0.12"
notify-debouncer-mini = "0.4"
toml = "0.8"
log = "0.4"
env_logger = "0.11"
color-eyre = "0.6"
gilrs-core = "0.5"
minifb = { version = "0.27", default-features = false, features = ["x11"] }
serialport = { version = "4", default-features = false }
