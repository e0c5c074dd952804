//! Mustache templates: a tokenizer that compiles template text into tokens,
//! and a renderer that expands those tokens against a stack of data values.
pub mod text;
pub mod token;
pub mod parser_spec;
pub mod parser;
pub mod data;
pub mod render;
pub mod template;
pub mod laws;
pub mod source_laws;
pub mod render_rel;
