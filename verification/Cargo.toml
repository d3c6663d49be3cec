[package]
name = "music_player"
version = "0.1.0"
edition = "2021"
publish = false

[dependencies]
biquad = "0.5"
cpal = "0.18"
eframe = { version = "0.34", default-features = false, features = ["default_fonts", "glow", "x11"] }
image = { version = "0.25", default-features = false, features = ["bmp", "dds", "exr", "ff", "gif", "hdr", "ico", "jpeg", "png", "pnm", "qoi", "tga", "tiff", "webp"] }
lofty = "0.24"
realfft = "3.5"
rfd = { version = "0.17", default-features = false, features = ["xdg-portal"] }
rubato = "2.0"
symphonia = { version = "0.6", default-features = false, features = ["mp3", "aac", "isomp4", "wav", "flac", "pcm", "id3v2"] }
thiserror = "2.0"

[dev-dependencies]
tempfile = "3"
