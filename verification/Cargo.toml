[package]
name = "route_resolver"
version = "0.9.0"
edition = "2021"
publish = false

[dependencies]
aho-corasick = "=1.1.5"
bumpalo = "=3.20.3"
mago-database = "=1.19.0"
mago-syntax = "=1.19.0"
mago-syntax-core = "=1.19.0"
mago-span = "=1.19.0"
mago-php-version = "=1.19.0"
mago-reporting = "=1.19.0"
mago-text-edit = "=1.19.0"
serde = { version = "=1.0.229", features = ["derive"] }
serde_json = "=1.0.154"
