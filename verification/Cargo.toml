[package]
name = "rapyd"
version = "0.1.0"
edition = "2021"
publish = false

[dependencies]
syn-rsx = "0.9"
syn = { version = "1", features = ["full"] }
proc-macro2 = "1"
quote = "1"
web-sys = { version = "0.3", features = ["Node", "Text", "Comment", "CharacterData", "Element", "Document", "DocumentFragment", "HtmlTemplateElement", "EventTarget", "Event", "Window", "Range", "console"] }
wasm-bindgen = "0.2"
js-sys = "0.3"
gloo-utils = { version = "0.2", default-features = false }
arrayvec = "0.7"
array-concat = "0.5"
const_format = "0.2"
enclose = "1"
rkyv = "0.7"
bytecheck = "0.6"
