[package]
name = "xlsx_merge"
version = "0.1.0"
edition = "2021"
publish = false

[dependencies]
serde_json = "1"
serde = { version = "1", features = ["derive"] }
calamine = "*"
xlsxwriter = "*"
actix-web = { version = "4", default-features = false, features = ["macros"] }
actix-multipart = { version = "*", features = ["derive", "tempfile"] }
actix-files = "*"
reqwest = { version = "*", default-features = false, features = ["json", "rustls-tls"] }
rust-embed = "*"
mime_guess = "*"
env_logger = "*"
log = "*"
