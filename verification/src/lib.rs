//! Lexical and syntactic front end for a Lisp/Scheme-family scripting
//! language: a character-level scanner that turns one source buffer into a
//! stream of classified tokens with exact byte spans, a stream adapter that
//! can drop comments, stamp a source id and hand out owned token text, and a
//! stack-based tree assembler that builds nested expression trees from the
//! token stream.

pub mod chars;
pub mod lexer;
pub mod numbers;
pub mod parser;
pub mod scan;
pub mod tokens;
