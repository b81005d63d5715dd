[package]
name = "bincur"
version = "0.1.0"
edition = "2021"
publish = false

[dependencies]
arrayvec = "0.7"
evdev = "0.13"
mio = { version = "1", features = ["os-poll", "os-ext"] }
udev = "0.9"
