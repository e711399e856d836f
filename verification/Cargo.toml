[package]
name = "stryke_office"
version = "0.1.0"
edition = "2021"
publish = false

[dependencies]
anyhow = "=1.0.104"
serde_json = "=1.0.154"
quick-xml = "=0.41.0"
zip = "=8.6.0"
calamine = "=0.38.0"
rust_xlsxwriter = "=0.102.0"
docx-rs = "=0.4.22"
image = "=0.25.10"
imageproc = "=0.27.0"
ab_glyph = "=0.2.32"
lopdf = "=0.46.0"
qrcode = { version = "=0.14.1", default-features = false }
barcoders = "=2.0.0"
once_cell = "=1.21.4"
lo_core = "=0.5.5"
lo_odf = "=0.5.3"
