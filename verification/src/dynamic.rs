//! Dynamics and chord symbols as items of a score.

use vstd::prelude::*;

verus! {

/// A dynamic mark, by its symbol.
#[derive(Debug, PartialEq, Eq, Hash)]
pub struct DynamicItem {
    pub symbol: String,
}

/// A chord symbol.
#[derive(Debug, PartialEq, Eq, Hash)]
pub struct ChordItem {}

} // verus!
