//! A verified library for the `fla` flashcard note format: a grammar-driven
//! parser producing a concrete tree, a typed-AST builder, and three renderers
//! (flashcard Markdown, structural dump, canonical sorted rewrite).

pub mod ast;
pub mod builder;
pub mod cst;
pub mod laws;
pub mod parser;
pub mod render;
pub mod text;
