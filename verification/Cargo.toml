[package]
name = "fazzer"
version = "0.1.0"
edition = "2021"
publish = false

[dependencies]
rand = "=0.8.8"
rand_chacha = "=0.3.1"
rustsat = "=0.7.3"
scuttle = "=0.4.0"
clap = { version = "=4.6.7", features = ["derive"] }
concolor-clap = "=0.1.0"
atty = "=0.2.14"
termcolor = "=1.4.1"
toml = "=1.1.7"
serde = { version = "=1.0.229", features = ["derive"] }
futures = { version = "=0.3.34", features = ["thread-pool"] }
