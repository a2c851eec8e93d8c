[package]
name = "noita_eye_messages"
version = "0.1.0"
edition = "2021"
publish = false

[dependencies]
clap = { version = "=4.6.7", features = ["derive"] }
smallvec = { version = "=1.16.2", features = ["const_generics"] }
unicode-segmentation = "=1.13.3"
