pub mod types;
pub mod token;
pub mod errors;
pub mod text;
pub mod chars;
pub mod lexer;
pub mod parser;
pub mod printer;
pub mod reader;
pub mod resolver;
pub mod selector;
pub mod selector_grammar;
pub mod subsequence;
pub mod values;
pub mod visitor;
