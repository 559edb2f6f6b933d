[package]
name = "photometric"
version = "0.1.0"
edition = "2021"
publish = false

[dependencies]
bevy_app = "=0.18.1"
bevy_asset = "=0.18.1"
bevy_color = "=0.18.1"
bevy_derive = "=0.18.1"
bevy_ecs = "=0.18.1"
bevy_image = "=0.18.1"
bevy_math = "=0.18.1"
bevy_pbr = "=0.18.1"
bevy_platform = "=0.18.1"
bevy_reflect = "=0.18.1"
bevy_render = "=0.18.1"
half = "=2.7.1"
serde = { version = "=1.0.229", features = ["derive"] }
thiserror = "=2.0.21"
tracing = "=0.1.44"
wgpu-types = "27"
