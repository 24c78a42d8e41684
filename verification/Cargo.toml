[package]
name = "wasm_particles"
version = "0.1.0"
edition = "2021"
publish = false

[dependencies]
wasm-bindgen = "0.2"
js-sys = "0.3"
web-sys = { version = "0.3", features = ["console", "Document", "DomRect", "Element", "Event", "EventTarget", "HtmlCanvasElement", "HtmlElement", "MouseEvent", "Performance", "UiEvent", "WebGl2RenderingContext", "WebGlBuffer", "WebGlFramebuffer", "WebGlProgram", "WebGlShader", "WebGlTexture", "WebGlUniformLocation", "WebGlVertexArrayObject", "WheelEvent", "Window"] }
