[package]
name = "id3edit"
version = "0.1.0"
edition = "2021"
publish = false

[dependencies]
base64 = "=0.22.1"
gloo = "=0.11.0"
gloo-file = "=0.3.0"
id3 = "=1.17.2"
js-sys = "=0.3.106"
web-sys = { version = "=0.3.106", features = ["Blob", "BlobPropertyBag", "Document", "DomRect", "Element", "Event", "File", "FileList", "HtmlElement", "HtmlInputElement", "HtmlSelectElement", "Location", "MouseEvent", "Node", "Url", "Window"] }
yew = { version = "=0.21.0", features = ["csr"] }
yew-hooks = "=0.3.4"
yewdux = "0.11"
