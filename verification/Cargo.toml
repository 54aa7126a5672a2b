[package]
name = "moonshine_spawn"
version = "0.2.4"
edition = "2021"
publish = false

[dependencies]
bevy_app = "0.15"
bevy_ecs = "0.15"
bevy_hierarchy = "0.15"
bevy_reflect = "0.15"
bevy_utils = "0.15"
