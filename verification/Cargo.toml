[package]
name = "astarte-device-sdk-derive"
version = "0.1.0"
edition = "2021"
publish = false

[dependencies]
proc-macro2 = "1"
quote = "1"
rumqttc = { version = "*", default-features = false }
syn = { version = "2", features = ["full"] }
thiserror = "1"
