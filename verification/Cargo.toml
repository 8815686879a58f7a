[package]
name = "doombuilder"
version = "0.1.0"
edition = "2021"
publish = false

[dependencies]
serde = { version = "=1.0.229", features = ["derive"] }
serde_json = "=1.0.154"
directories = "=6.0.0"
glam = "=0.34.2"
spade = "=2.15.1"
rstar = "=0.14.0"
png = "0.17"
