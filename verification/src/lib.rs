pub mod cli;
pub mod error;
pub mod graph;
pub mod laws;
pub mod order;
pub mod parser;
pub mod parser_laws;
pub mod string_map;
pub mod text;
