[package]
name = "hackerman"
version = "0.1.0"
edition = "2021"
publish = false

[dependencies]
anyhow = "=1.0.104"
bpaf = "=0.4.12"
cargo_metadata = "=0.14.2"
dot = "=0.1.4"
guppy = "=0.14.4"
petgraph = "=0.6.5"
semver = "=1.0.28"
target-spec = "=3.7.0"
tempfile = "=3.27.0"
toml_edit = "=0.14.4"
tracing = "=0.1.44"
