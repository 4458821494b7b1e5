//! The mathematical model that the contracts of this crate are stated over.
//!
//! An input is a sequence of items. A pairer turns it into pairs of an item and
//! its successor; a key function cuts it into runs of neighbours with matching
//! keys. Everything here is specification: nothing in this file is compiled.

use crate::error::{ContractViolation, FatalInternalError};
use vstd::prelude::*;
use vstd::std_specs::cmp::PartialEqSpec;

verus! {

/// The items that a pairer has yet to hand out as the first of a pair: the one
/// it holds in its slot, if any, followed by what its source will still yield.
pub open spec fn pending<T>(slot: Option<T>, rest: Seq<T>) -> Seq<T> {
    match slot {
        Some(held) => seq![held] + rest,
        None => rest,
    }
}

/// The item at position `i` of `s` together with its successor, if it has one.
pub open spec fn pair_at<T>(s: Seq<T>, i: int) -> (T, Option<T>) {
    (s[i], if i + 1 < s.len() { Some(s[i + 1]) } else { None })
}

/// The item behind the first of `s`, if there is one.
pub open spec fn second<T>(s: Seq<T>) -> Option<T> {
    if s.len() > 1 {
        Some(s[1])
    } else {
        None
    }
}

/// The pair that a pairer with pending items `s` hands out next.
pub open spec fn head_pair<T>(s: Seq<T>) -> Option<(T, Option<T>)> {
    if s.len() == 0 {
        None
    } else {
        Some(pair_at(s, 0))
    }
}

/// What is pending after one pair was handed out.
pub open spec fn tail<T>(s: Seq<T>) -> Seq<T> {
    if s.len() == 0 {
        s
    } else {
        s.skip(1)
    }
}

/// All the pairs of `s`, in order: one per item.
pub open spec fn pairs<T>(s: Seq<T>) -> Seq<(T, Option<T>)> {
    Seq::new(s.len(), |i: int| pair_at(s, i))
}

/// What a slot that holds `held` hands out when it takes in `item`.
pub open spec fn paired_with<T>(held: Option<T>, item: T) -> Option<(T, Option<T>)> {
    match held {
        Some(first) => Some((first, Some(item))),
        None => None,
    }
}

/// What a slot that holds `held` hands out when its source has ended.
pub open spec fn paired_last<T>(held: Option<T>) -> Option<(T, Option<T>)> {
    match held {
        Some(last) => Some((last, None)),
        None => None,
    }
}

/// All that a slot that holds `held` hands out when the items of `s` are
/// pushed into it one by one and it is finished after the last.
pub open spec fn fed<T>(held: Option<T>, s: Seq<T>) -> Seq<(T, Option<T>)>
    decreases s.len(),
{
    if s.len() == 0 {
        match paired_last(held) {
            Some(pair) => seq![pair],
            None => Seq::empty(),
        }
    } else {
        let rest = fed(Some(s[0]), s.skip(1));
        match paired_with(held, s[0]) {
            Some(pair) => seq![pair] + rest,
            None => rest,
        }
    }
}

/// How the measure by which a source counts down moves over an advance: it
/// stays defined or undefined, and where `strictly` holds it has gone down.
pub open spec fn descends(before: Option<nat>, after: Option<nat>, strictly: bool) -> bool {
    &&& before is Some <==> after is Some
    &&& before is Some && strictly ==> after->0 < before->0
}

/// Duplicating an item yields an equal item.
pub open spec fn faithful_clone<T: Clone>() -> bool {
    forall|a: T, b: T| #[trigger] cloned(a, b) ==> a == b
}

/// `f` can be applied to every item, and applying it twice to one item gives
/// one key.
pub open spec fn pure_key_fn<T, K, F: Fn(&T) -> K>(f: F) -> bool {
    &&& forall|x: T| #[trigger] call_requires(f, (&x,))
    &&& forall|x: T, k1: K, k2: K|
        #![trigger call_ensures(f, (&x,), k1), call_ensures(f, (&x,), k2)]
        call_ensures(f, (&x,), k1) && call_ensures(f, (&x,), k2) ==> k1 == k2
}

/// The key that `f` gives to `x`.
pub open spec fn key_of<T, K, F: Fn(&T) -> K>(f: F, x: T) -> K {
    choose|k: K| call_ensures(f, (&x,), k)
}

/// `f` has been seen to give `x` its key: `key_of(f, x)` is a value that a call
/// of `f` on `x` returns. The functions of this crate state this of every item
/// that they apply the key function to, so that a caller who knows what `f`
/// ensures learns what the key is.
pub open spec fn keyed<T, K, F: Fn(&T) -> K>(f: F, x: T) -> bool {
    call_ensures(f, (&x,), key_of(f, x))
}

/// The key function of the model that stands for `f`: it gives every item the
/// key that `f` gives it.
pub open spec fn spec_key<T, K, F: Fn(&T) -> K>(f: F) -> spec_fn(T) -> K {
    |x: T| key_of(f, x)
}

/// The keys that `key` gives `a` and `b` compare equal, in this order.
pub open spec fn keys_match<T, K: PartialEq>(key: spec_fn(T) -> K, a: T, b: T) -> bool {
    key(a).eq_spec(&key(b))
}

/// What a partition is made of: the item it emits next, the item after that as
/// far as it has looked, and whether it has emitted its last item.
pub struct PartitionView<T> {
    pub current: T,
    pub lookahead: Option<T>,
    pub terminated: bool,
}

impl<T> PartitionView<T> {
    /// The partition that starts at `current`, with `lookahead` behind it.
    pub open spec fn starting(current: T, lookahead: Option<T>) -> Self {
        PartitionView { current, lookahead, terminated: false }
    }

    /// This partition with another pair in the place of its items.
    pub open spec fn moved_to(self, current: T, lookahead: Option<T>) -> Self {
        PartitionView { current, lookahead, terminated: self.terminated }
    }

    /// This partition after it has emitted its last item.
    pub open spec fn ended(self) -> Self {
        PartitionView { terminated: true, ..self }
    }
}

/// A live partition goes on with the item it has looked ahead to when that
/// item's key matches the key of its current item.
pub open spec fn wants_successor<T, K: PartialEq>(
    key: spec_fn(T) -> K,
    p: PartitionView<T>,
) -> bool {
    !p.terminated && match p.lookahead {
        Some(ahead) => keys_match(key, p.current, ahead),
        None => false,
    }
}

/// One advance of a partition `p` over a pairer with pending items `s`: what it
/// reports, the partition after it, and what is pending after it.
pub open spec fn partition_step<T, K: PartialEq>(
    key: spec_fn(T) -> K,
    p: PartitionView<T>,
    s: Seq<T>,
) -> (Result<Option<T>, FatalInternalError>, PartitionView<T>, Seq<T>) {
    if p.terminated {
        (Ok(None), p, s)
    } else if wants_successor(key, p) {
        match head_pair(s) {
            Some((current, lookahead)) => (
                Ok(Some(p.current)),
                p.moved_to(current, lookahead),
                tail(s),
            ),
            None => (Err(FatalInternalError), p, s),
        }
    } else {
        (Ok(Some(p.current)), p.ended(), s)
    }
}

/// A group sequence that last emitted the key `last` takes `current` as the
/// start of a new partition unless the keys compare equal.
pub open spec fn admits<T, K: PartialEq>(key: spec_fn(T) -> K, last: Option<K>, current: T) -> bool {
    match last {
        Some(emitted) => !emitted.eq_spec(&key(current)),
        None => true,
    }
}

/// One advance of a group sequence that last emitted the key `last` over a
/// pairer with pending items `s`: what it reports, the key it remembers after
/// it, and what is pending after it.
pub open spec fn group_step<T, K: PartialEq>(
    key: spec_fn(T) -> K,
    last: Option<K>,
    s: Seq<T>,
) -> (Result<Option<PartitionView<T>>, ContractViolation<K>>, Option<K>, Seq<T>) {
    match head_pair(s) {
        None => (Ok(None), last, s),
        Some((current, lookahead)) => {
            if admits(key, last, current) {
                (
                    Ok(Some(PartitionView::starting(current, lookahead))),
                    Some(key(current)),
                    tail(s),
                )
            } else {
                (Err(ContractViolation { key: key(current) }), last, tail(s))
            }
        },
    }
}

/// What is pending after `n` pairs were handed out of `s`.
pub open spec fn advanced<T>(s: Seq<T>, n: nat) -> Seq<T>
    decreases n,
{
    if n == 0 {
        s
    } else {
        advanced(tail(s), (n - 1) as nat)
    }
}

/// The length of the key run that `s` starts with: the longest prefix in which
/// the keys of every two neighbours match.
pub open spec fn run_len<T, K: PartialEq>(key: spec_fn(T) -> K, s: Seq<T>) -> nat
    decreases s.len(),
{
    if s.len() == 0 {
        0
    } else if s.len() > 1 && keys_match(key, s[0], s[1]) {
        1 + run_len(key, s.skip(1))
    } else {
        1
    }
}

/// A key run is never empty, and never longer than the sequence it starts.
pub proof fn lemma_run_len_bounds<T, K: PartialEq>(key: spec_fn(T) -> K, s: Seq<T>)
    ensures
        run_len(key, s) <= s.len(),
        s.len() > 0 ==> run_len(key, s) >= 1,
    decreases s.len(),
{
    if s.len() > 1 && keys_match(key, s[0], s[1]) {
        lemma_run_len_bounds(key, s.skip(1));
    }
}

/// The key runs of `s`, in order.
pub open spec fn runs<T, K: PartialEq>(key: spec_fn(T) -> K, s: Seq<T>) -> Seq<Seq<T>>
    decreases s.len(),
{
    if s.len() == 0 {
        Seq::empty()
    } else {
        let n = run_len(key, s) as int;
        proof {
            lemma_run_len_bounds(key, s);
        }
        seq![s.take(n)] + runs(key, s.skip(n))
    }
}

/// A partition `p` advanced `n` times over a pairer with pending items `s`:
/// the partition and what is pending afterwards.
pub open spec fn partition_steps<T, K: PartialEq>(
    key: spec_fn(T) -> K,
    p: PartitionView<T>,
    s: Seq<T>,
    n: nat,
) -> (PartitionView<T>, Seq<T>)
    decreases n,
{
    if n == 0 {
        (p, s)
    } else {
        let step = partition_step(key, p, s);
        partition_steps(key, step.1, step.2, (n - 1) as nat)
    }
}

/// What advancing a partition to its end comes to: the items emitted, the
/// partition at its end, and what is pending then.
pub struct Drained<T> {
    pub items: Seq<T>,
    pub partition: PartitionView<T>,
    pub pending: Seq<T>,
}

/// A partition `p` advanced over a pairer with pending items `s` until it
/// reports its end. `None` where an advance fails.
pub open spec fn drain<T, K: PartialEq>(
    key: spec_fn(T) -> K,
    p: PartitionView<T>,
    s: Seq<T>,
) -> Option<Drained<T>>
    decreases s.len(), (if p.terminated { 0nat } else { 1nat }),
{
    let step = partition_step(key, p, s);
    match step.0 {
        Err(_) => None,
        Ok(None) => Some(Drained { items: Seq::empty(), partition: p, pending: s }),
        Ok(Some(item)) => match drain(key, step.1, step.2) {
            Some(rest) => Some(Drained { items: seq![item] + rest.items, ..rest }),
            None => None,
        },
    }
}

/// Advancing a partition to its end leaves no more pending than there was, and
/// a partition that has seen no successor sees none.
pub proof fn lemma_drain_bounds<T, K: PartialEq>(
    key: spec_fn(T) -> K,
    p: PartitionView<T>,
    s: Seq<T>,
)
    ensures
        drain(key, p, s) matches Some(end) ==> {
            &&& end.pending.len() <= s.len()
            &&& end.partition.terminated
            &&& p.lookahead is None ==> end.partition.lookahead is None
        },
    decreases s.len(), (if p.terminated { 0nat } else { 1nat }),
{
    let step = partition_step(key, p, s);
    if step.0 matches Ok(Some(_)) {
        lemma_drain_bounds(key, step.1, step.2);
    }
}

/// Why a group sequence and its partitions, advanced to the end, came to
/// nothing.
pub enum Failure<K> {
    /// An advance of the group sequence failed.
    Violation(ContractViolation<K>),
    /// An advance of a partition failed.
    Fatal(FatalInternalError),
}

/// A group sequence that last emitted the key `last`, advanced over a pairer
/// with pending items `s` until it reports its end, each partition advanced to
/// its end before the group sequence is advanced again: the items of each
/// partition, in order, or the first failure.
pub open spec fn partition_all<T, K: PartialEq>(
    key: spec_fn(T) -> K,
    last: Option<K>,
    s: Seq<T>,
) -> Result<Seq<Seq<T>>, Failure<K>>
    decreases s.len(),
{
    let step = group_step(key, last, s);
    match step.0 {
        Err(violation) => Err(Failure::Violation(violation)),
        Ok(None) => Ok(Seq::empty()),
        Ok(Some(p)) => match drain(key, p, step.2) {
            None => Err(Failure::Fatal(FatalInternalError)),
            Some(end) => {
                proof {
                    lemma_drain_bounds(key, p, step.2);
                }
                match partition_all(key, step.1, end.pending) {
                    Ok(more) => Ok(seq![end.items] + more),
                    Err(failure) => Err(failure),
                }
            },
        },
    }
}

} // verus!
