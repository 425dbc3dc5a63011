pub mod parser_node_visitor;
pub mod parser_token_handler;
pub mod path_parser;
pub mod str_reader;
pub mod tokenizer;
pub mod tokens;

pub use self::parser_node_visitor::ParserNodeVisitor;
pub use self::parser_token_handler::ParserTokenHandler;
pub use self::str_reader::StrRange;
