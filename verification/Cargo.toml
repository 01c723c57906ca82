[package]
name = "gxf2chrom"
version = "0.1.0"
edition = "2021"
publish = false

[dependencies]
clap = { version = "4", features = ["derive"] }
flate2 = "1"
hashbrown = "0.14"
libc = "0.2"
log = "0.4"
num_cpus = "1"
rayon = "1"
simple_logger = "4"
thiserror = "1"
