pub mod parser;
pub mod json;
pub mod cache;
