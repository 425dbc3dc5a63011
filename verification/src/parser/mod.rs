pub mod parser;
pub mod path_reader;
pub mod tokenizer;
pub mod utils;
