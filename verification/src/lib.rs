//! A lossless, error-tolerant syntax parser for TOML.
//!
//! [`parse`] turns any text into a green tree that holds every byte of it,
//! together with the syntax errors that were met on the way.

pub mod acceptance;
pub mod afresh;
pub mod derivation;
pub mod error;
pub mod grammar;
pub mod laws;
pub mod leaves;
pub mod lexer;
pub mod lexical;
pub mod model;
pub mod order;
pub mod parser;
pub mod preserved;
pub mod rules;
pub mod schema;
pub mod syntax;
pub mod text;
pub mod tokens;
pub mod tree;
pub mod under_root;
pub mod util;

pub use error::{Error, TextRange};
pub use lexer::Lexeme;
pub use parser::{parse, parse_lexemes, Parse};
pub use syntax::SyntaxKind;
pub use util::underscores::check_underscores;
