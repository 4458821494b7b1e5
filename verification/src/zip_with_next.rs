//! Pairing every item with its successor.

use crate::model::{
    descends, faithful_clone, head_pair, paired_last, paired_with, pairs, pending, tail,
};
use vstd::prelude::*;
use vstd::std_specs::iter::IteratorSpec;

verus! {

/// The one item that a pairer buffers: a duplicate of the item it saw last,
/// which has yet to be handed out as the first of a pair.
///
/// This is the whole state of a pairer apart from its source. A caller that
/// polls a source, and so cannot hand it over, drives a `Lookahead` directly:
/// [`Lookahead::poll_next`] with each answer of the source that is ready.
pub struct Lookahead<T> {
    held: Option<T>,
}

/// What a polled pairer does with an answer of its source that is ready.
#[derive(Debug, PartialEq, Eq)]
pub enum Turn<T> {
    /// It is ready itself: with a pair, or with its end.
    Ready(Option<(T, Option<T>)>),
    /// It has taken in the first item and has no pair yet. It answers that it
    /// is not ready, and since its source has not done so and will wake no
    /// one, it asks to be polled again itself.
    Rearm,
}

impl<T> View for Lookahead<T> {
    type V = Option<T>;

    closed spec fn view(&self) -> Option<T> {
        self.held
    }
}

impl<T: Clone> Lookahead<T> {
    /// An empty slot.
    pub fn new() -> (slot: Self)
        ensures
            slot@ is None,
    {
        Lookahead { held: None }
    }

    /// Takes in the next item of the source. Where an item was held, it is
    /// handed out paired with `item`; where none was, nothing can be handed
    /// out before the source was asked once more. Either way a duplicate of
    /// `item` is held afterwards.
    pub fn push(&mut self, item: T) -> (pair: Option<(T, Option<T>)>)
        ensures
            final(self)@ is Some,
            cloned(item, final(self)@->0),
            pair == paired_with(old(self)@, item),
    {
        let held = self.held.take();
        self.held = Some(item.clone());
        match held {
            Some(held) => Some((held, Some(item))),
            None => None,
        }
    }

    /// Takes in the end of the source: hands out the held item as the last
    /// pair, and leaves the slot empty.
    pub fn finish(&mut self) -> (pair: Option<(T, Option<T>)>)
        ensures
            final(self)@ is None,
            pair == paired_last(old(self)@),
    {
        match self.held.take() {
            Some(held) => Some((held, None)),
            None => None,
        }
    }

    /// One turn of a polled pairer whose source was ready with `polled`: an
    /// item, or its end.
    pub fn poll_next(&mut self, polled: Option<T>) -> (turn: Turn<T>)
        ensures
            match polled {
                Some(item) => {
                    &&& final(self)@ is Some
                    &&& cloned(item, final(self)@->0)
                    &&& turn == match paired_with(old(self)@, item) {
                        Some(pair) => Turn::Ready(Some(pair)),
                        None => Turn::Rearm,
                    }
                },
                None => final(self)@ is None && turn == Turn::Ready(paired_last(old(self)@)),
            },
    {
        match polled {
            Some(item) => match self.push(item) {
                Some(pair) => Turn::Ready(Some(pair)),
                None => Turn::Rearm,
            },
            None => Turn::Ready(self.finish()),
        }
    }
}

/// An iterator's items, each paired with the item that follows it.
pub struct ZipWithNext<I: Iterator> {
    upstream: I,
    prev: Lookahead<I::Item>,
}

impl<I: Iterator> ZipWithNext<I> where I::Item: Clone {
    /// The iterator that the items come from.
    pub closed spec fn source(&self) -> I {
        self.upstream
    }

    /// The item held back, if any.
    pub closed spec fn slot(&self) -> Option<I::Item> {
        self.prev@
    }

    /// The source ends, and duplicates of its items equal them.
    pub open spec fn wf(&self) -> bool {
        &&& self.source().obeys_prophetic_iter_laws()
        &&& faithful_clone::<I::Item>()
    }

    /// Pairs the items of `upstream`.
    pub fn new(upstream: I) -> (zipped: Self)
        requires
            upstream.obeys_prophetic_iter_laws(),
            faithful_clone::<I::Item>(),
        ensures
            zipped.wf(),
            zipped.source() == upstream,
            zipped.slot() is None,
    {
        ZipWithNext { upstream, prev: Lookahead::new() }
    }

    /// Hands out the next pair: the first pending item with the one behind it.
    /// `None` once nothing is pending.
    ///
    /// An advance that hands out an item with its successor has taken the
    /// successor from the source, whose measure has then gone down.
    pub fn next(&mut self) -> (pair: Option<(I::Item, Option<I::Item>)>)
        requires
            old(self).wf(),
        ensures
            final(self).wf(),
            pair == head_pair(pending(old(self).slot(), old(self).source().remaining())),
            pending(final(self).slot(), final(self).source().remaining()) == tail(
                pending(old(self).slot(), old(self).source().remaining()),
            ),
            descends(
                old(self).source().decrease(),
                final(self).source().decrease(),
                (pair matches Some((_, Some(_)))),
            ),
    {
        let pair = match self.upstream.next() {
            Some(current) => {
                if self.prev.held.is_some() {
                    self.prev.push(current)
                } else {
                    match self.upstream.next() {
                        Some(next) => {
                            let held = next.clone();
                            assert(cloned(next, held));
                            self.prev.held = Some(held);
                            Some((current, Some(next)))
                        },
                        None => Some((current, None)),
                    }
                }
            },
            None => self.prev.finish(),
        };
        assert(pending(self.slot(), self.source().remaining()) =~= tail(
            pending(old(self).slot(), old(self).source().remaining()),
        ));
        pair
    }

    /// Hands out all the pairs that are left, in order: one for each pending
    /// item.
    ///
    /// The source has to count down, as every iterator does that a `for` loop
    /// can run over: that is what bounds the number of advances.
    pub fn collect(self) -> (all: Vec<(I::Item, Option<I::Item>)>)
        requires
            self.wf(),
            self.source().decrease() is Some,
        ensures
            all@ == pairs(pending(self.slot(), self.source().remaining())),
    {
        let mut zipped = self;
        let mut all = Vec::new();
        loop
            invariant
                self.wf(),
                zipped.wf(),
                zipped.source().decrease() is Some,
                all.len() <= pending(self.slot(), self.source().remaining()).len(),
                all@ == pairs(pending(self.slot(), self.source().remaining())).take(all.len() as int),
                pending(zipped.slot(), zipped.source().remaining()) == pending(
                    self.slot(),
                    self.source().remaining(),
                ).skip(all.len() as int),
            ensures
                all@ == pairs(pending(self.slot(), self.source().remaining())),
            decreases zipped.source().decrease()->0,
        {
            let ghost input = pending(self.slot(), self.source().remaining());
            let ghost done = all.len() as int;
            match zipped.next() {
                Some(pair) => {
                    let last = pair.1.is_none();
                    all.push(pair);
                    proof {
                        assert(input.skip(done).skip(1) =~= input.skip(done + 1));
                        assert(all@ =~= pairs(input).take(done + 1));
                        if last {
                            assert(all@ =~= pairs(input));
                        }
                    }
                    if last {
                        break ;
                    }
                },
                None => {
                    assert(all@ =~= pairs(input));
                    break ;
                },
            }
        }
        all
    }
}

} // verus!
