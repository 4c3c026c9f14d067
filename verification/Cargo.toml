[package]
name = "stolen_moments"
version = "0.1.0"
edition = "2021"
publish = false

[dependencies]
rand = { version = "=0.8.8", features = ["small_rng"] }
noise = "=0.9.0"
bevy = { version = "=0.17.3", default-features = false, features = ["std", "async_executor", "multi_threaded", "bevy_asset", "bevy_color", "bevy_core_pipeline", "bevy_pbr", "bevy_render", "bevy_scene", "bevy_gltf", "bevy_image", "bevy_mesh", "bevy_camera", "bevy_light", "bevy_shader", "bevy_state", "bevy_text", "bevy_ui", "bevy_ui_render", "bevy_window", "bevy_gizmos", "bevy_log", "default_font", "png"] }
