//! A small textual language for describing HTTP mock routes in bulk, with a
//! verified lexer and parser.
//!
//! Source text such as
//!
//! ```text
//! GET /api/user/:id 200
//! Delay=1
//!
//! {
//!   "foo": true
//! }
//! ```
//!
//! is turned by [`tokenizer::tokens::parse`] into a sequence of
//! [`tokenizer::tokens::Token`]s, and by [`tokenizer::ast::parse_requirements`]
//! into [`app_requirements::ApplicationRequirements`] route descriptors.

pub mod app_requirements;
pub mod tokenizer;
