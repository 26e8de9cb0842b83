[package]
name = "i18n_core"
version = "0.1.0"
edition = "2021"
publish = false

[dependencies]
anyhow = "=1.0.104"
base62 = "=2.2.6"
clap = { version = "=4.6.7", features = ["derive"] }
csv = "=1.4.0"
globwalk = "=0.8.1"
indexmap = "=2.14.2"
normpath = "=1.5.2"
proc-macro2 = { version = "=1.0.107", features = ["span-locations"] }
quote = "=1.0.47"
serde_json = { version = "=1.0.154", features = ["preserve_order"] }
serde_yaml = "=0.9.34"
siphasher = "=1.0.4"
syn = { version = "=2.0.119", features = ["full"] }
toml = { version = "=0.8.23", features = ["preserve_order"] }
