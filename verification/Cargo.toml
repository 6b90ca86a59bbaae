[package]
name = "synth_pill"
version = "0.1.0"
edition = "2021"
publish = false

[dependencies]
micromath = "=2.1.0"
rand_xoshiro = "=0.8.1"
