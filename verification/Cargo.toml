[package]
name = "echo"
version = "0.1.0"
edition = "2021"
publish = false

[dependencies]
rand = "0.8"
hound = "3.5"
midly = "0.5"
num-complex = "0.4"
rustfft = "6"
mp3lame-encoder = "0.1"
serde = { version = "1", features = ["derive"] }
clap = { version = "4", default-features = false, features = ["std", "help"] }
