[package]
name = "glao-error-budget"
version = "0.1.0"
edition = "2021"
publish = false

[dependencies]
anyhow = "1"
bincode = "1.3"
nalgebra = "0.32"
npyz = { version = "0.8", features = ["npz"] }
rayon = "1"
serde = { version = "1", features = ["derive"] }
thiserror = "1"
zip = "0.6"
