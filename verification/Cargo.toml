[package]
name = "iscc_nbs"
version = "0.1.0"
edition = "2021"
publish = false

[dependencies]
fontconfig = "*"
geo = "*"
geo-clipper = "*"
geo-types = "*"
interpolation = "*"
is_sorted = "*"
palette = "*"
roxmltree = "*"
ttf-parser = "*"
ttf_word_wrap = "*"

[dev-dependencies]
regex = "*"
