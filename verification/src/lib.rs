//! A lambda-calculus evaluator: terms are parsed from a small textual
//! syntax, definitions are collapsed into a single term, and the term is
//! reduced to beta-normal form with a normal-order (leftmost-outermost)
//! strategy.  Capture-avoiding substitution, the reduction engine, the
//! alpha-equivalence check, the parser and the fresh-name generator are
//! all verified against the specifications in their modules.

pub mod alpha;
pub mod data;
pub mod fresh;
pub mod grammar;
pub mod parse;
pub mod reduce;
pub mod roundtrip;

pub use data::{boolean, church};
pub use fresh::{get_fresh_ident, NameGen};
pub use grammar::{Defn, File, Term};
pub use parse::{to_file, to_term, ParseError, ParserResult};
