[package]
name = "final_state_rs"
version = "0.1.0"
edition = "2021"
publish = false

[dependencies]
tiny-bitstream = "*"
rayon = "*"

[dev-dependencies]
rand = "*"
