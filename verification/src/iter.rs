//! The entry points, as methods of every iterator.

use crate::model::{faithful_clone, pure_key_fn};
use crate::partitioned::Partitioned;
use crate::zip_with_next::ZipWithNext;
use vstd::prelude::*;
use vstd::std_specs::cmp::PartialEqSpec;
use vstd::std_specs::iter::IteratorSpec;

verus! {

/// Pairing and partitioning for every iterator.
pub trait IteratorExt: Iterator + Sized {
    /// Cuts the items into partitions: one for each run of neighbours to which
    /// `make_key` gives matching keys.
    fn partitioned<F, K>(self, make_key: F) -> (group: Partitioned<Self, F, K>) where
        F: Fn(&Self::Item) -> K,
        K: PartialEq,
        Self::Item: Clone,

        requires
            self.obeys_prophetic_iter_laws(),
            faithful_clone::<Self::Item>(),
            pure_key_fn(make_key),
            K::obeys_eq_spec(),
        ensures
            group.wf(),
            group.source() == self,
            group.slot() is None,
            group.key_fn() == make_key,
            group.last_key() is None,
    {
        Partitioned::new(ZipWithNext::new(self), make_key)
    }

    /// Pairs every item with the item that follows it.
    fn zip_with_next(self) -> (zipped: ZipWithNext<Self>) where Self::Item: Clone
        requires
            self.obeys_prophetic_iter_laws(),
            faithful_clone::<Self::Item>(),
        ensures
            zipped.wf(),
            zipped.source() == self,
            zipped.slot() is None,
    {
        ZipWithNext::new(self)
    }
}

impl<I: Iterator> IteratorExt for I {

}

} // verus!
