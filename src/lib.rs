//! A compiler for a small scripting language that emits 64-bit ARM assembly text.
//!
//! The pipeline is lexer -> parser -> generator; each stage is verified against
//! the contracts stated in its module.
pub mod text;
pub mod lexer;
pub mod parser;
pub mod generator;
pub mod roll;
