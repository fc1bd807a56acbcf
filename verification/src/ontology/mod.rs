pub mod concepts;
pub mod graph;
pub mod parser;
