[package]
name = "audio_nodes"
version = "0.1.0"
edition = "2021"
publish = false

[dependencies]
log = "=0.4.35"
num-complex = "=0.4.6"
num-traits = "=0.2.19"
realfft = "=3.5.1"
smallvec = "=1.16.4"
