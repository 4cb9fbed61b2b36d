//! Document-construction core of a small browser engine: an HTML tokenizer and
//! tree constructor, a CSS tokenizer and rule parser, and the URL and HTTP
//! response readers that feed them.

pub mod error;
pub mod http;
pub mod renderer;
pub mod text;
pub mod url;
