pub mod buffer;
pub mod token;
pub mod tokenizer;
pub mod spelling;
pub mod ast;
pub mod parser;
pub mod generator;
