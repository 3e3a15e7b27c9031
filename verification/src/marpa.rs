//! Placeholder for a general (possibly ambiguous) context-free parser.
//!
//! Only the LL(1) parser in `ll1` is implemented; this entry point exists so
//! that a chart parser for arbitrary grammars can be added later.

use vstd::prelude::*;
use crate::{Cfg, PackedSymbol};

verus! {

/// Parse a string of grammar symbols into a chart. Unimplemented: it accepts
/// any frozen grammar and does nothing.
pub fn parse<T>(grammar: &Cfg<T>, string: &[PackedSymbol]) {
}

} // verus!
