[package]
name = "mynote"
version = "0.1.0"
edition = "2021"
publish = false

[dependencies]
chrono = { version = "0.4", features = ["serde"] }
dirs = "*"
uuid = { version = "1", features = ["v4"] }
pulldown-cmark = "*"
serde = { version = "1", features = ["derive"] }
serde_json = "1"
glib = "*"
gio = "*"
pango = "*"
gtk4 = { version = "*", features = ["v4_12"] }
libadwaita = { version = "*", features = ["v1_5"] }
