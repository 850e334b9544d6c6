[package]
name = "music_sandbox"
version = "0.1.0"
edition = "2021"
publish = false

[dependencies]
rand = "0.4"
dsp-chain = "*"
hound = "*"
portaudio = "*"
lazy_static = "1"
serde = "1"
serde_derive = "1"
serde_json = "1"
