pub mod css;
pub mod dom;
pub mod html;
