pub mod parser;
pub mod raw;
