[package]
name = "music_syn"
version = "0.1.0"
edition = "2021"
publish = false

[dependencies]
claxon = "*"
hound = "*"
rimd = "*"
portaudio = "*"
