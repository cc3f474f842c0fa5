//! The errors of the library.
use vstd::prelude::*;

verus! {

/// What can go wrong reading a table.
#[derive(Debug, Clone, Copy, PartialEq, Eq)]
pub enum Error {
    /// The bytes of a table or block do not follow the format.
    Corrupt,
    /// A block would start beyond the 32-bit offsets of the meta section.
    TooLarge,
    /// A cached read was asked of a table that has no block cache.
    NoBlockCache,
}

} // verus!
