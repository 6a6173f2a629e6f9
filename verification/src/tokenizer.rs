//! The two stages of the route-description pipeline: the lexer ([`tokens`])
//! and the requirement parser ([`ast`]).

pub mod ast;
pub mod tokens;
