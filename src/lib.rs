//! uPIM: notes, configuration and contacts, with the contact query language.
//!
//! - [filter]: the query language: operators, function clauses, conditions
//!   and queries, each parsed by a function proved equal to its grammar.
//! - [record] and [contact]: the data a condition is evaluated against, and
//!   the evaluation.
//! - [printer]: conditions and queries back to text, with the proof that the
//!   text parses back.
//! - [note], [config], [settings], [alias], [paths]: the note format, INI
//!   configuration, the checks made when it is loaded, alias parameters and
//!   collection paths.
//! - [lexical], [number], [either], [error]: shared helpers and types.
use vstd::prelude::*;

pub mod alias;
pub mod config;
pub mod contact;
pub mod either;
pub mod error;
pub mod filter;
pub mod lexical;
pub mod note;
pub mod number;
pub mod paths;
pub mod printer;
pub mod record;
pub mod settings;

verus! {

} // verus!
