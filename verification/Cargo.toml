[package]
name = "bevy_mod_picking"
version = "0.1.0"
edition = "2021"
publish = false

[dependencies]
bevy_app = "0.14"
bevy_ecs = "0.14"
bevy_hierarchy = "0.14"
bevy_input = "0.14"
bevy_math = "0.14"
bevy_reflect = "0.14"
bevy_transform = "0.14"
bevy_utils = "0.14"
bevy_window = "0.14"
