[package]
name = "shrink_oracle"
version = "0.1.0"
edition = "2021"
publish = false

[dependencies]
anyhow = "=1.0.104"
bincode = "=1.3.3"
clap = { version = "=4.6.7", features = ["derive"] }
hashbrown = "=0.14.5"
hex = "=0.4.3"
p3-air = "=0.2.3-succinct"
p3-baby-bear = "=0.2.3-succinct"
p3-challenger = "=0.2.3-succinct"
p3-commit = "=0.2.3-succinct"
p3-field = "=0.2.3-succinct"
p3-matrix = "=0.2.3-succinct"
sha2 = "=0.10.9"
sp1-core-machine = { version = "=5.2.4", default-features = false }
sp1-primitives = "=5.2.4"
sp1-recursion-core = { version = "=5.2.4", default-features = false }
sp1-stark = "=5.2.4"
