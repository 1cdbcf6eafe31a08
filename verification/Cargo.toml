[package]
name = "pure_onnx_ocr_sync"
version = "0.2.0"
edition = "2021"
publish = false

[dependencies]
imageproc = { version = "*", default-features = false }
image = { version = "*", default-features = false, features = ["png", "jpeg"] }
geo-types = "0.7"
i_overlay = "*"
ndarray = "*"
tract-onnx = "*"
