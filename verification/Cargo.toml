[package]
name = "osm_api"
version = "0.1.0"
edition = "2021"
publish = false

[dependencies]
rusqlite = { version = "=0.14.0", features = ["bundled"] }
sqlitemap = "=0.2.1"
reqwest = { version = "*", default-features = false, features = ["blocking"] }
