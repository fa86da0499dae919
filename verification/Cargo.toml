[package]
name = "i18nify"
version = "0.1.0"
edition = "2021"
publish = false

[dependencies]
serde_json = "*"
toml = "*"
heck = "*"
axum = "*"
tower = "*"
futures-util = "*"
thiserror = "*"
shellexpand = "*"
