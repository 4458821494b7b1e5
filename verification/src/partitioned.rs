//! The group sequence and the partitions it produces.

use crate::error::{ContractViolation, FatalInternalError};
use crate::laws::lemma_drain_emits_run;
use crate::model::{
    admits, descends, drain, faithful_clone, group_step, key_of, keyed, lemma_drain_bounds,
    partition_all, partition_step, pending, pure_key_fn, second, spec_key, wants_successor, Drained,
    Failure, PartitionView,
};
use crate::zip_with_next::ZipWithNext;
use vstd::prelude::*;
use vstd::std_specs::cmp::PartialEqSpec;
use vstd::std_specs::iter::IteratorSpec;

verus! {

/// The items of one key run.
///
/// A partition owns the item it emits next and the item it has looked ahead
/// to. The pairer that the further items come from stays with the group
/// sequence: [`Partition::next`] borrows it for the length of one advance.
pub struct Partition<T, F> {
    make_key: F,
    current: T,
    next: Option<T>,
    terminated: bool,
}

impl<T, F> View for Partition<T, F> {
    type V = PartitionView<T>;

    closed spec fn view(&self) -> PartitionView<T> {
        PartitionView { current: self.current, lookahead: self.next, terminated: self.terminated }
    }
}

impl<T: Clone, K: PartialEq, F: Fn(&T) -> K> Partition<T, F> {
    /// The function that gives an item its key.
    pub closed spec fn key_fn(&self) -> F {
        self.make_key
    }

    /// The key function, as the model has it.
    pub open spec fn key(&self) -> spec_fn(T) -> K {
        spec_key(self.key_fn())
    }

    /// The key function is pure, keys compare as their type specifies, and
    /// duplicates of items equal them.
    pub open spec fn wf(&self) -> bool {
        &&& pure_key_fn(self.key_fn())
        &&& K::obeys_eq_spec()
        &&& faithful_clone::<T>()
    }

    /// Starts the partition of the key run that `current` opens, with `next`
    /// as the item behind it, and records the run's key in `last_key`. Fails,
    /// and leaves `last_key` as it is, where that key equals the one recorded
    /// before: the run that was being emitted has not ended.
    pub fn begin(make_key: F, last_key: &mut Option<K>, current: T, next: Option<T>) -> (r: Result<
        Self,
        ContractViolation<K>,
    >)
        requires
            pure_key_fn(make_key),
            K::obeys_eq_spec(),
            faithful_clone::<T>(),
        ensures
            keyed(make_key, current),
            r is Ok <==> admits(spec_key(make_key), *old(last_key), current),
            r matches Ok(p) ==> {
                &&& p.wf()
                &&& p.key_fn() == make_key
                &&& p@ == PartitionView::starting(current, next)
                &&& *final(last_key) == Some(key_of(make_key, current))
            },
            r matches Err(v) ==> {
                &&& v.key == key_of(make_key, current)
                &&& *final(last_key) == *old(last_key)
            },
    {
        let key = make_key(&current);
        let repeated = match last_key {
            Some(emitted) => *emitted == key,
            None => false,
        };
        if repeated {
            Err(ContractViolation { key })
        } else {
            *last_key = Some(key);
            Ok(Partition { make_key, current, next, terminated: false })
        }
    }

    /// Whether the next advance has to take a pair from the pairer: the
    /// partition is live, and the item it has looked ahead to has the key of
    /// its current item.
    pub fn wants_successor(&self) -> (wanted: bool)
        requires
            self.wf(),
        ensures
            wanted == wants_successor(self.key(), self@),
            !self@.terminated && self@.lookahead is Some ==> keyed(self.key_fn(), self@.current)
                && keyed(self.key_fn(), self@.lookahead->0),
    {
        if self.terminated {
            return false;
        }
        match &self.next {
            Some(ahead) => (self.make_key)(&self.current) == (self.make_key)(ahead),
            None => false,
        }
    }

    /// Goes on with the pair that the pairer handed out: emits the current
    /// item and puts the pair in its place. Fails where the pairer had no
    /// pair.
    pub fn succeed(&mut self, pair: Option<(T, Option<T>)>) -> (r: Result<T, FatalInternalError>)
        ensures
            final(self).key_fn() == old(self).key_fn(),
            match pair {
                Some((current, lookahead)) => {
                    &&& r == Ok::<T, FatalInternalError>(old(self)@.current)
                    &&& final(self)@ == old(self)@.moved_to(current, lookahead)
                },
                None => r is Err && final(self)@ == old(self)@,
            },
    {
        match pair {
            Some((mut current, next)) => {
                self.next = next;
                core::mem::swap(&mut self.current, &mut current);
                Ok(current)
            },
            None => Err(FatalInternalError),
        }
    }

    /// Ends the partition: emits a duplicate of the current item as the last
    /// one. Reports `None` where the partition had ended before.
    pub fn conclude(&mut self) -> (last: Option<T>)
        requires
            old(self).wf(),
        ensures
            final(self).key_fn() == old(self).key_fn(),
            final(self)@ == old(self)@.ended(),
            old(self)@.terminated ==> last is None,
            !old(self)@.terminated ==> last == Some(old(self)@.current),
    {
        if self.terminated {
            return None;
        }
        self.terminated = true;
        let last = self.current.clone();
        assert(cloned(self.current, last));
        Some(last)
    }

    /// Emits the next item of the key run, or `None` once the run has ended.
    ///
    /// `group` is the group sequence that produced this partition. Where the
    /// run goes on, the next pair is taken from its pairer. That fails only
    /// where the pairer has nothing pending although this partition has looked
    /// at a successor: the group sequence was advanced in between.
    pub fn next<I: Iterator<Item = T>>(&mut self, group: &mut Partitioned<I, F, K>) -> (r: Result<
        Option<T>,
        FatalInternalError,
    >)
        requires
            old(self).wf(),
            old(group).wf(),
        ensures
            final(self).wf(),
            final(self).key_fn() == old(self).key_fn(),
            final(group).wf(),
            final(group).key_fn() == old(group).key_fn(),
            final(group).last_key() == old(group).last_key(),
            (r, final(self)@, pending(final(group).slot(), final(group).source().remaining()))
                == partition_step(
                old(self).key(),
                old(self)@,
                pending(old(group).slot(), old(group).source().remaining()),
            ),
            (r matches Ok(None)) <==> old(self)@.terminated,
            old(self)@.terminated ==> final(self)@ == old(self)@,
            final(self)@.terminated <==> old(self)@.terminated || (r is Ok && !wants_successor(
                old(self).key(),
                old(self)@,
            )),
            !wants_successor(old(self).key(), old(self)@) ==> *final(group) == *old(group),
            !old(self)@.terminated && old(self)@.lookahead is Some ==> keyed(
                old(self).key_fn(),
                old(self)@.current,
            ) && keyed(old(self).key_fn(), old(self)@.lookahead->0),
            descends(
                old(group).source().decrease(),
                final(group).source().decrease(),
                wants_successor(old(self).key(), old(self)@) && final(self)@.lookahead is Some
                    && r is Ok,
            ),
    {
        if self.wants_successor() {
            match self.succeed(group.upstream.next()) {
                Ok(item) => Ok(Some(item)),
                Err(fatal) => Err(fatal),
            }
        } else {
            Ok(self.conclude())
        }
    }

    /// Advances the partition until it reports its end, and returns the items
    /// it emitted, in order. Fails where one advance fails; the partition is
    /// then left where it failed: with a successor looked at, and nothing
    /// pending.
    ///
    /// The source has to count down, as every iterator does that a `for` loop
    /// can run over: that is what bounds the number of advances.
    pub fn collect<I: Iterator<Item = T>>(&mut self, group: &mut Partitioned<I, F, K>) -> (r: Result<
        Vec<T>,
        FatalInternalError,
    >)
        requires
            old(self).wf(),
            old(group).wf(),
            old(group).source().decrease() is Some,
        ensures
            final(self).wf(),
            final(self).key_fn() == old(self).key_fn(),
            final(group).wf(),
            final(group).key_fn() == old(group).key_fn(),
            final(group).last_key() == old(group).last_key(),
            match drain(
                old(self).key(),
                old(self)@,
                pending(old(group).slot(), old(group).source().remaining()),
            ) {
                Some(end) => {
                    &&& r matches Ok(items) && items@ == end.items
                    &&& final(self)@ == end.partition
                    &&& pending(final(group).slot(), final(group).source().remaining())
                        == end.pending
                },
                None => {
                    &&& r is Err
                    &&& wants_successor(final(self).key(), final(self)@)
                    &&& pending(final(group).slot(), final(group).source().remaining()).len() == 0
                },
            },
            descends(old(group).source().decrease(), final(group).source().decrease(), false),
            r is Ok && final(self)@.lookahead is Some ==> final(group).source().decrease()->0
                <= old(group).source().decrease()->0,
    {
        let mut items = Vec::new();
        loop
            invariant
                self.wf(),
                self.key_fn() == old(self).key_fn(),
                group.wf(),
                group.key_fn() == old(group).key_fn(),
                group.last_key() == old(group).last_key(),
                group.source().decrease() is Some,
                old(group).source().decrease() is Some,
                self@.lookahead is Some ==> group.source().decrease()->0 <= old(
                    group,
                ).source().decrease()->0,
                match drain(
                    self.key(),
                    self@,
                    pending(group.slot(), group.source().remaining()),
                ) {
                    Some(end) => drain(
                        old(self).key(),
                        old(self)@,
                        pending(old(group).slot(), old(group).source().remaining()),
                    ) == Some(Drained { items: items@ + end.items, ..end }),
                    None => drain(
                        old(self).key(),
                        old(self)@,
                        pending(old(group).slot(), old(group).source().remaining()),
                    ) is None,
                },
            ensures
                self.wf(),
                self.key_fn() == old(self).key_fn(),
                group.wf(),
                group.key_fn() == old(group).key_fn(),
                group.last_key() == old(group).last_key(),
                descends(old(group).source().decrease(), group.source().decrease(), false),
                self@.lookahead is Some ==> group.source().decrease()->0 <= old(
                    group,
                ).source().decrease()->0,
                drain(
                    old(self).key(),
                    old(self)@,
                    pending(old(group).slot(), old(group).source().remaining()),
                ) == Some(
                    Drained {
                        items: items@,
                        partition: self@,
                        pending: pending(group.slot(), group.source().remaining()),
                    },
                ),
            decreases
                    (if self@.lookahead is Some {
                        group.source().decrease()->0 + 1
                    } else {
                        0
                    }),
                    (if self@.terminated {
                        0nat
                    } else {
                        1nat
                    }),
        {
            let ghost before = items@;
            match self.next(group) {
                Ok(Some(item)) => {
                    items.push(item);
                    assert(items@ + drain(
                        self.key(),
                        self@,
                        pending(group.slot(), group.source().remaining()),
                    )->0.items =~= before + (seq![item] + drain(
                        self.key(),
                        self@,
                        pending(group.slot(), group.source().remaining()),
                    )->0.items));
                },
                Ok(None) => {
                    assert(items@ + Seq::<T>::empty() =~= items@);
                    break ;
                },
                Err(fatal) => {
                    return Err(fatal);
                },
            }
        }
        Ok(items)
    }
}

/// The partitions of an iterator's items: one for each run of neighbours whose
/// keys match, in order.
pub struct Partitioned<I: Iterator, F, K> {
    upstream: ZipWithNext<I>,
    make_key: F,
    key: Option<K>,
}

impl<I: Iterator, K: PartialEq, F: Fn(&I::Item) -> K> Partitioned<I, F, K> where I::Item: Clone {
    /// The iterator that the items come from.
    pub closed spec fn source(&self) -> I {
        self.upstream.source()
    }

    /// The item that the pairer holds back, if any.
    pub closed spec fn slot(&self) -> Option<I::Item> {
        self.upstream.slot()
    }

    /// The function that gives an item its key.
    pub closed spec fn key_fn(&self) -> F {
        self.make_key
    }

    /// The key function, as the model has it.
    pub open spec fn key(&self) -> spec_fn(I::Item) -> K {
        spec_key(self.key_fn())
    }

    /// The key of the partition produced last, if any.
    pub closed spec fn last_key(&self) -> Option<K> {
        self.key
    }

    /// The source ends, duplicates of its items equal them, the key function
    /// is pure, and keys compare as their type specifies.
    pub open spec fn wf(&self) -> bool {
        &&& self.source().obeys_prophetic_iter_laws()
        &&& faithful_clone::<I::Item>()
        &&& pure_key_fn(self.key_fn())
        &&& K::obeys_eq_spec()
    }

    /// Groups the items that `upstream` pairs by the key that `make_key`
    /// gives them.
    pub fn new(upstream: ZipWithNext<I>, make_key: F) -> (group: Self)
        requires
            upstream.wf(),
            pure_key_fn(make_key),
            K::obeys_eq_spec(),
        ensures
            group.wf(),
            group.source() == upstream.source(),
            group.slot() == upstream.slot(),
            group.key_fn() == make_key,
            group.last_key() is None,
    {
        Partitioned { upstream, make_key, key: None }
    }

    /// Produces the partition of the next key run, or `None` once no item is
    /// pending.
    ///
    /// Fails where the first pending item has the key of the partition
    /// produced last: that partition was not advanced to its end. The item is
    /// taken from the pairer all the same.
    pub fn next(&mut self) -> (r: Result<Option<Partition<I::Item, F>>, ContractViolation<K>>) where
        F: Copy,

        requires
            old(self).wf(),
        ensures
            final(self).wf(),
            final(self).key_fn() == old(self).key_fn(),
            ({
                let step = group_step(
                    old(self).key(),
                    old(self).last_key(),
                    pending(old(self).slot(), old(self).source().remaining()),
                );
                &&& final(self).last_key() == step.1
                &&& !(r matches Ok(None)) ==> keyed(
                    old(self).key_fn(),
                    pending(old(self).slot(), old(self).source().remaining())[0],
                )
                &&& pending(final(self).slot(), final(self).source().remaining()) == step.2
                &&& match r {
                    Ok(Some(partition)) => {
                        &&& step.0 == Ok::<_, ContractViolation<K>>(Some(partition@))
                        &&& partition.wf()
                        &&& partition.key_fn() == old(self).key_fn()
                    },
                    Ok(None) => step.0 == Ok::<Option<PartitionView<I::Item>>, ContractViolation<K>>(None),
                    Err(violation) => step.0 == Err::<Option<PartitionView<I::Item>>, _>(violation),
                }
            }),
            descends(
                old(self).source().decrease(),
                final(self).source().decrease(),
                (r matches Ok(Some(partition)) && partition@.lookahead is Some),
            ),
    {
        match self.upstream.next() {
            Some((current, next)) => {
                match Partition::begin(self.make_key, &mut self.key, current, next) {
                    Ok(partition) => Ok(Some(partition)),
                    Err(violation) => Err(violation),
                }
            },
            None => Ok(None),
        }
    }

    /// Produces every partition that is left and advances each to its end:
    /// the items of each partition, in order. Fails where an advance of the
    /// group sequence fails, with that error; no advance of a partition does.
    ///
    /// The source has to count down, as every iterator does that a `for` loop
    /// can run over: that is what bounds the number of advances.
    pub fn collect(self) -> (r: Result<Vec<Vec<I::Item>>, ContractViolation<K>>) where F: Copy
        requires
            self.wf(),
            self.source().decrease() is Some,
        ensures
            match partition_all(
                self.key(),
                self.last_key(),
                pending(self.slot(), self.source().remaining()),
            ) {
                Ok(parts) => r matches Ok(all) && items_of(all@) == parts,
                Err(failure) => r matches Err(violation) && failure == Failure::Violation(violation),
            },
    {
        let mut group = self;
        let mut all: Vec<Vec<I::Item>> = Vec::new();
        loop
            invariant
                group.wf(),
                group.key_fn() == self.key_fn(),
                group.source().decrease() is Some,
                match partition_all(
                    group.key(),
                    group.last_key(),
                    pending(group.slot(), group.source().remaining()),
                ) {
                    Ok(more) => partition_all(
                        self.key(),
                        self.last_key(),
                        pending(self.slot(), self.source().remaining()),
                    ) == Ok::<Seq<Seq<I::Item>>, Failure<K>>(items_of(all@) + more),
                    Err(failure) => partition_all(
                        self.key(),
                        self.last_key(),
                        pending(self.slot(), self.source().remaining()),
                    ) == Err::<Seq<Seq<I::Item>>, Failure<K>>(failure),
                },
            ensures
                partition_all(
                    self.key(),
                    self.last_key(),
                    pending(self.slot(), self.source().remaining()),
                ) == Ok::<Seq<Seq<I::Item>>, Failure<K>>(items_of(all@)),
            decreases group.source().decrease()->0,
        {
            let ghost key = group.key();
            let ghost waiting = pending(group.slot(), group.source().remaining());
            let ghost before = items_of(all@);
            match group.next() {
                Err(violation) => {
                    return Err(violation);
                },
                Ok(None) => {
                    assert(before + Seq::<Seq<I::Item>>::empty() =~= before);
                    break ;
                },
                Ok(Some(mut partition)) => {
                    proof {
                        assert(partition@ == PartitionView::starting(waiting[0], second(waiting)));
                        lemma_drain_emits_run(key, waiting);
                        lemma_drain_bounds(key, partition@, waiting.skip(1));
                    }
                    let ghost end = drain(key, partition@, waiting.skip(1))->0;
                    match partition.collect(&mut group) {
                        Ok(items) => {
                            let exhausted = partition.next.is_none();
                            all.push(items);
                            proof {
                                assert(items_of(all@) =~= before + seq![end.items]);
                                let rest = partition_all(key, group.last_key(), end.pending);
                                if rest is Ok {
                                    assert(items_of(all@) + rest->Ok_0 =~= before + (seq![
                                        end.items,
                                    ] + rest->Ok_0));
                                }
                                if exhausted {
                                    assert(end.pending.len() == 0);
                                    assert(items_of(all@) + Seq::<Seq<I::Item>>::empty()
                                        =~= items_of(all@));
                                }
                            }
                            if exhausted {
                                break ;
                            }
                        },
                        Err(_) => {
                            assert(false);
                            unreached()
                        },
                    }
                },
            }
        }
        Ok(all)
    }
}

/// The items that each of `parts` holds.
pub open spec fn items_of<T>(parts: Seq<Vec<T>>) -> Seq<Seq<T>> {
    Seq::new(parts.len(), |i: int| parts[i]@)
}

} // verus!
