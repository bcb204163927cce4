[package]
name = "vocab_quiz"
version = "0.3.0"
edition = "2021"
publish = false

[dependencies]
chrono = "0.4"
postcard = { version = "1", features = ["alloc"] }
rand = "0.8"
serde = { version = "1", features = ["derive"] }
thiserror = "1"
xmltree = "0.10"
