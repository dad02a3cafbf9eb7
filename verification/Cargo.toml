[package]
name = "plugin_pipeline"
version = "0.1.0"
edition = "2021"
publish = false

[dependencies]
anyhow = "=1.0.104"
async-trait = "=0.1.92"
mlua = { version = "=0.9.9", features = ["lua54", "vendored", "async", "serialize"] }
serde = { version = "=1.0.229", features = ["derive"] }
tealr = { version = "=0.9.1", default-features = false, features = ["derive", "mlua", "mlua_lua54", "mlua_vendored", "mlua_async", "mlua_serialize"] }
tokio = { version = "=1.54.1", features = ["rt", "macros"] }
