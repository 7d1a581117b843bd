[package]
name = "creeper_cli"
version = "0.1.0"
edition = "2021"
publish = false

[dependencies]
actix-web = { version = "=4.18.1", default-features = false, features = ["macros"] }
colored = "=2.2.0"
flate2 = "=1.1.10"
lazy_static = "=1.5.1"
reqwest = { version = "=0.12.28", default-features = false, features = ["blocking", "json", "rustls-tls"] }
serde_json = "=1.0.154"
tar = "=0.4.46"
toml = "=0.8.23"
unescape = "=0.1.0"
zip = { version = "=2.6.1", default-features = false, features = ["deflate"] }
