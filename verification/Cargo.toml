[package]
name = "monthly_file_diff"
version = "0.1.0"
edition = "2021"
publish = false

[dependencies]
chrono = "=0.4.45"
clap = { version = "=4.6.7", features = ["derive"] }
encoding_rs = "=0.8.42"
encoding_rs_rw = "=0.4.3"
regex = "=1.13.1"
serde = { version = "=1.0.229", features = ["derive"] }
serde_json = "=1.0.151"
tera = { version = "=2.4.0", features = ["glob_fs"] }
walkdir = "=2.5.0"
