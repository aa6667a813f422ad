//! A recursive-descent parser for a small bracketed grammar of nested
//! groups (`{` .. `}`) and garbage spans (`<` .. `>`, with `!` escaping
//! the next character), together with two metrics over the resulting
//! tree: a depth-weighted group score and the total count of literal
//! characters inside garbage.

pub mod ast;
pub mod error;
pub mod parser;
pub mod laws;
