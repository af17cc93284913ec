pub mod expr;
pub mod parser;
pub mod scanner;
pub mod token;
