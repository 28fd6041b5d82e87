[package]
name = "vectx"
version = "0.2.8"
edition = "2021"
publish = false

[dependencies]
actix-cors = "0.7"
actix-files = "0.6"
actix-multipart = { version = "0.7", default-features = false }
actix-web = { version = "4", default-features = false, features = ["macros"] }
chrono = "0.4"
futures-util = "0.3"
parking_lot = "0.12"
rand = "0.8"
rayon = "1"
serde = { version = "1", features = ["derive"] }
serde_json = "1"
tonic = { version = "0.12", default-features = false }
