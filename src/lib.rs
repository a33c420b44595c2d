//! Semantic core of a compiler front-end for a structured-text control
//! language: the syntax tree, the symbol index, reference resolution and
//! compile-time folding of constant initializers.
pub mod ast;
pub mod text;
pub mod typesystem;
pub mod index;
pub mod const_evaluator;
pub mod resolver;
