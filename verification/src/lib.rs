pub mod dom;
pub mod laws;
pub mod parser;
