[package]
name = "election_import"
version = "0.1.0"
edition = "2021"
publish = false

[dependencies]
calamine = "*"
chrono = "*"
clap = { version = "*", features = ["derive"] }
colored = "*"
dbase = "*"
rouille = "*"
rusqlite = { version = "*", features = ["bundled"] }
rust_xlsxwriter = "*"
serde = { version = "*", features = ["derive"] }
shapefile = "*"
