[package]
name = "dicom_scanner"
version = "0.1.0"
edition = "2021"
publish = false

[dependencies]
anyhow = "*"
clap = { version = "*", features = ["derive"] }
dicom-core = "*"
dicom-dictionary-std = "*"
dicom-object = "*"
env_logger = "*"
log = "*"
num_cpus = "*"
time = "*"
tokio = { version = "*", features = ["full"] }
tokio-stream = { version = "*", features = ["fs"] }
