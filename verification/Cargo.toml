[package]
name = "provmap"
version = "0.1.0"
edition = "2021"
publish = false

[dependencies]
hoi4save = "*"
human-panic = "*"
image = "*"
indicatif = "*"
jomini = { version = "*", features = ["derive"] }
rand = "0.8"
rayon = "*"
serde = { version = "*", features = ["derive"] }
serde_json = "*"
tokio = { version = "*", features = ["macros", "rt-multi-thread"] }
vtracer = "*"
