[package]
name = "fa-leiden-cd"
version = "0.1.0"
edition = "2021"

[dependencies]
boxcar = "*"
hashbrown = { version = "*", features = ["serde"] }
rayon = "*"
serde = { version = "1", features = ["derive"] }
