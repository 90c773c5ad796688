[package]
name = "teleprompt_cli"
version = "0.3.0"
edition = "2021"
publish = false

[dependencies]
clap = { version = "4", features = ["derive"] }
dirs = "5"
rand = "0.8"
rpassword = "7"
serde = { version = "1", features = ["derive"] }
serde_json = "1"
ssh2 = "0.9"
ssh-key = { version = "0.6", features = ["ed25519", "rand_core", "std"] }
zeroize = { version = "1", features = ["derive"] }
argon2 = "0.5"
aes-gcm = "0.10"
