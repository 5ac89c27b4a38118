[package]
name = "iso_ui"
version = "0.1.0"
edition = "2021"
publish = false

[dependencies]
ahash = "=0.8.12"
anyhow = "=1.0.104"
bytemuck = "=1.25.2"
derive_more = { version = "=2.1.1", features = ["deref", "deref_mut"] }
expiringmap = "=0.1.2"
mutual = "=1.0.2"
ordered-float = "*"
ttf-parser = "=0.25.1"
wgpu = "*"
