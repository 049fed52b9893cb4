[package]
name = "wysiwyg"
version = "0.1.0"
edition = "2021"
publish = false

[dependencies]
html-escape = "=0.3.0"
unicode-segmentation = "=1.13.3"
pulldown-cmark = "=0.13.6"
html5ever = "=0.26.0"
