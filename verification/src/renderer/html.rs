pub mod html_tag_attribute;
pub mod insertion;
pub mod machine;
pub mod parser;
pub mod stream;
pub mod tag;
pub mod token;
