pub mod node;
pub mod tree;
