[package]
name = "geotag_query"
version = "0.1.0"
edition = "2021"
publish = false

[dependencies]
actix-web = "=4.15.0"
once_cell = "=1.21.4"
parking_lot = "=0.12.5"
rustc-hash = "=2.1.3"
serde = { version = "=1.0.229", features = ["derive"] }
time = "=0.3.55"
