//! Lazy grouping of consecutive items that share a key.
//!
//! A [`ZipWithNext`] pairs every item of an iterator with its successor. A
//! [`Partitioned`] cuts the items into partitions, one per run of neighbours
//! whose keys match, and a [`Partition`] emits the items of one run. At no
//! time is more than one item buffered ahead, and the input is never held as
//! a whole.
//!
//! The group sequence owns the pairer that both it and its partitions take
//! their items from; a partition borrows the group sequence for each advance.
//! Only one partition is meant to be live at a time. A caller who advances the
//! group sequence while a partition still has items of its run to emit is
//! told so by the next advance, as a [`ContractViolation`].
//!
//! The contracts are stated over the sequences of [`model`], and [`laws`]
//! proves what holds of them for every input. They assume of the types that
//! a caller brings: that the iterator ends; that a duplicate of an item
//! equals the item; that the key function is pure; and that `==` on keys is
//! what the key type specifies, for the laws an equivalence.
//!
//! A caller that polls its source steps the same sequences by hand:
//! [`Lookahead::poll_next`] pairs, [`Partition::begin`] starts a partition,
//! and [`Partition::wants_successor`], [`Partition::succeed`] and
//! [`Partition::conclude`] advance it.

pub mod error;
pub mod iter;
pub mod laws;
pub mod model;
pub mod partitioned;
pub mod zip_with_next;

pub use crate::error::{ContractViolation, FatalInternalError};
pub use crate::iter::IteratorExt;
pub use crate::partitioned::{Partition, Partitioned};
pub use crate::zip_with_next::{Lookahead, Turn, ZipWithNext};
