//! An interpreter for a bit-level language of seven commands that act on an
//! unbounded tape of bits, with input and output packed a byte at a time.

use vstd::prelude::*;

pub mod token;
pub mod brackets;
pub mod source;
pub mod peephole;
pub mod program;

pub use token::Token;
pub use source::{Source, LexError};
pub use program::{Program, Event};

verus! {

} // verus!
