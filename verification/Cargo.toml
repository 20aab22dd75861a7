[package]
name = "yacrd"
version = "1.0.0"
edition = "2021"
publish = false

[dependencies]
sled = "=0.34.7"
niffler = { version = "=3.0.1", default-features = false, features = ["gz"] }
flate2 = "=1.1.10"
clap = { version = "=4.6.7", features = ["derive"] }
noodles = { version = "=0.117.0", features = ["fasta", "fastq"] }

[dev-dependencies]
tempfile = "=3.27.0"
