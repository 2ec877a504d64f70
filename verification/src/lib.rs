//! Front end of a small indentation-sensitive language: a tokenizer, a
//! retokenizer that folds comments, a token store with parameterized views,
//! a recursive-descent parser, and a diagnostic renderer that rebuilds the
//! offending source line from the token stream alone.

pub mod cgen;
pub mod cli;
pub mod diagnosis;
pub mod hike;
pub mod laws;
pub mod lex;
pub mod lits;
pub mod parse;
pub mod pos;
pub mod script;
pub mod strutil;
pub mod token;
