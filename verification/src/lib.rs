pub mod jsonpath;
pub mod jsonpath_parser;
pub mod parser;
pub mod paths;
pub mod ref_value;
pub mod select;
pub mod selector;
