pub mod cssom;
pub mod token;
pub mod written;
