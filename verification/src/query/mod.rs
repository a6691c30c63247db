//! The selector language: its syntax tree and its parser.

pub mod ast;
pub mod lexical;
pub mod parser;
pub mod written;

pub use ast::{Atom, Combinator, FieldAccess, NameMatch, Query, Selector, SelectorNode, Sigil};

pub use parser::parse;
