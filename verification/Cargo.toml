[package]
name = "wce"
version = "0.1.0"
edition = "2021"
publish = false

[dependencies]
thiserror = "=2.0.21"
mpq = "=0.8.1"
ceres-mpq = "=0.1.9"
rgb = "=0.8.53"
dotenv = "=0.15.0"
log = "=0.4.35"

[dev-dependencies]
byteorder = "=1.5.0"
regex = "1"
