//! Error values surfaced at the library boundary.

use vstd::prelude::*;

verus! {

/// A textual bit string held a character other than `0` or `1`.
#[derive(Debug, Clone, Copy, PartialEq, Eq, Structural)]
pub struct InvalidSymbolError;

/// The operation is declared by the lookup-table contract but not supported
/// by this implementation.
#[derive(Debug, Clone, Copy, PartialEq, Eq, Structural)]
pub struct UnsupportedOperation;

} // verus!
