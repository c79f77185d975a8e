[package]
name = "voxel_streaming"
version = "0.1.0"
edition = "2021"
publish = false

[dependencies]
bevy_utils = "0.11"
noise = "0.8"
rand = "0.8"
