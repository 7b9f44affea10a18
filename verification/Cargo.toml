[package]
name = "messageiro"
version = "0.1.0"
edition = "2021"
publish = false

[dependencies]
async-trait = "*"
chrono = "*"
futures = "*"
log = "*"
rayon = "*"
tokio = { version = "*", features = ["full"] }
uuid = { version = "*", features = ["v4"] }

[dev-dependencies]
bson = "*"
