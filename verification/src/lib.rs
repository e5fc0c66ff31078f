pub mod folding;
pub mod parser;
pub mod scanner;
pub mod store;
