//! Parser combinators over sliceable input.
//!
//! A [`Parser`] is a shared handle to a parsing function from an input and
//! a start offset to an output with the offset reached, or to an
//! [`Error`]. Parsers are built from the leaves in [`primitive`] with the
//! methods of [`Parser`], and run with [`Parser::parse`].
//!
//! A failure is either recoverable, so that an alternative may be tried
//! from the same offset, or fatal, so that it passes every alternative by.
//! Only [`Parser::expect`] makes a failure fatal.
//!
//! Every parser comes with two relations: `accepts` says where it may be
//! run, `yields` what it may return. The contract of each combinator
//! states both for the parser it builds, over those of the parsers it is
//! given.

pub mod choice;
pub mod combinator;
pub mod equality;
pub mod error;
pub mod input;
pub mod literal;
pub mod parser;
pub mod primitive;
pub mod repeat;
pub mod separate;
pub mod sequence;
pub mod slice;
pub mod util;

pub use error::{Error, ParseResult, Recover};
pub use parser::Parser;
pub use slice::Slice;
