//! The two ways in which advancing a sequence of this crate can fail.

use vstd::prelude::*;

verus! {

/// A group sequence was advanced while the partition it produced before still
/// had items of its key run to emit. `key` is the key that came up again.
#[derive(Debug, PartialEq, Eq)]
pub struct ContractViolation<K> {
    pub key: K,
}

/// A partition had seen a successor with its own key, and the pairer it shares
/// with its group sequence had no pair left for it.
#[derive(Debug, Clone, Copy, PartialEq, Eq)]
pub struct FatalInternalError;

} // verus!
