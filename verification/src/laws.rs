//! What holds of the sequences of this crate whatever the input: theorems
//! over the model that the contracts are stated in.

use crate::error::{ContractViolation, FatalInternalError};
use crate::model::{
    admits, advanced, drain, fed, group_step, head_pair, keys_match,
    lemma_run_len_bounds, pairs, partition_all, partition_step, partition_steps, pending, run_len,
    runs, second, tail, wants_successor, Drained, Failure, PartitionView,
};
use vstd::laws_eq::{obeys_eq, obeys_eq_spec_properties};
use vstd::prelude::*;
use vstd::std_specs::cmp::PartialEqSpec;

verus! {

/// After `n` pairs were handed out of `s`, what is left of `s` from item `n`
/// on is pending.
proof fn lemma_advanced<T>(s: Seq<T>, n: nat)
    ensures
        n <= s.len() ==> advanced(s, n) == s.skip(n as int),
        n > s.len() ==> advanced(s, n).len() == 0,
    decreases n,
{
    if n > 0 {
        lemma_advanced(tail(s), (n - 1) as nat);
        if 0 < n <= s.len() {
            assert(s.skip(1).skip(n - 1) =~= s.skip(n as int));
        }
    } else {
        assert(s.skip(0) =~= s);
    }
}

/// Lookahead is exact. Advancing a pairer over the items `s` hands out one
/// pair for each item and then reports its end: advance number `i`, counted
/// from 0, hands out item `i` with item `i + 1`, or with `None` where item `i`
/// is the last; every advance from number `s.len()` on hands out nothing.
pub proof fn pairing_is_exact<T>(s: Seq<T>, i: nat)
    ensures
        i < s.len() ==> head_pair(advanced(s, i)) == Some(pairs(s)[i as int]),
        i < s.len() ==> pairs(s)[i as int].0 == s[i as int],
        i + 1 < s.len() ==> pairs(s)[i as int].1 == Some(s[i as int + 1]),
        i + 1 == s.len() ==> pairs(s)[i as int].1 is None,
        i >= s.len() ==> head_pair(advanced(s, i)) is None,
        pairs(s).len() == s.len(),
{
    lemma_advanced(s, i);
}

/// Lookahead is exact for a slot that is driven by hand too. A slot that the
/// items of `s` are pushed into one by one, and that is finished after the
/// last, hands out the pairs of what it held followed by `s`: for an empty
/// slot, the pairs of `s`.
pub proof fn fed_pairing_is_exact<T>(held: Option<T>, s: Seq<T>)
    ensures
        fed(held, s) == pairs(pending(held, s)),
        held is None ==> fed(held, s) == pairs(s),
    decreases s.len(),
{
    if s.len() > 0 {
        fed_pairing_is_exact(Some(s[0]), s.skip(1));
        assert(seq![s[0]] + s.skip(1) =~= s);
    }
    assert(fed(held, s) =~= pairs(pending(held, s)));
}

/// Once a partition has reported its end, every further advance reports the
/// end again and changes nothing, whatever is pending by then.
pub proof fn exhaustion_is_final<T, K: PartialEq>(
    key: spec_fn(T) -> K,
    p: PartitionView<T>,
    s: Seq<T>,
    later: Seq<T>,
)
    requires
        partition_step(key, p, s).0 == Ok::<Option<T>, FatalInternalError>(None),
    ensures
        partition_step(key, partition_step(key, p, s).1, later) == (
            Ok::<Option<T>, FatalInternalError>(None),
            p,
            later,
        ),
{
}

/// Where a key run ends before the sequence does, the keys of the run's last
/// item and of the item behind it do not match.
proof fn lemma_run_end<T, K: PartialEq>(key: spec_fn(T) -> K, s: Seq<T>)
    requires
        run_len(key, s) < s.len(),
    ensures
        run_len(key, s) >= 1,
        !keys_match(key, s[run_len(key, s) - 1], s[run_len(key, s) as int]),
    decreases s.len(),
{
    lemma_run_len_bounds(key, s);
    if s.len() > 1 && keys_match(key, s[0], s[1]) {
        lemma_run_end(key, s.skip(1));
    }
}

/// The key of a run's first item equals the key of every later item of the run.
proof fn lemma_run_chain<T, K: PartialEq>(key: spec_fn(T) -> K, s: Seq<T>, j: int)
    requires
        obeys_eq::<K>(),
        0 < j < run_len(key, s),
    ensures
        j < s.len(),
        keys_match(key, s[0], s[j]),
    decreases j,
{
    reveal(obeys_eq_spec_properties);
    lemma_run_len_bounds(key, s);
    if j > 1 {
        lemma_run_chain(key, s.skip(1), j - 1);
        assert(key(s[0]).eq_spec(&key(s[1])));
        assert(key(s[1]).eq_spec(&key(s[j])));
    }
}

/// The keys of any two items at different places of one key run match.
proof fn lemma_run_pairwise<T, K: PartialEq>(key: spec_fn(T) -> K, s: Seq<T>, i: int, j: int)
    requires
        obeys_eq::<K>(),
        0 <= i < run_len(key, s),
        0 <= j < run_len(key, s),
        i != j,
    ensures
        i < s.len(),
        j < s.len(),
        keys_match(key, s[i], s[j]),
{
    reveal(obeys_eq_spec_properties);
    lemma_run_len_bounds(key, s);
    if i == 0 {
        lemma_run_chain(key, s, j);
    } else if j == 0 {
        lemma_run_chain(key, s, i);
        assert(key(s[0]).eq_spec(&key(s[i])));
    } else {
        lemma_run_chain(key, s, i);
        lemma_run_chain(key, s, j);
        assert(key(s[0]).eq_spec(&key(s[i])));
        assert(key(s[i]).eq_spec(&key(s[0])));
        assert(key(s[0]).eq_spec(&key(s[j])));
    }
}

/// No item of a key run has a key that equals the key of the item behind the
/// run.
proof fn lemma_run_apart<T, K: PartialEq>(key: spec_fn(T) -> K, s: Seq<T>, i: int)
    requires
        obeys_eq::<K>(),
        0 <= i < run_len(key, s),
        run_len(key, s) < s.len(),
    ensures
        !keys_match(key, s[i], s[run_len(key, s) as int]),
{
    reveal(obeys_eq_spec_properties);
    let n = run_len(key, s) as int;
    lemma_run_end(key, s);
    if i != n - 1 {
        lemma_run_pairwise(key, s, n - 1, i);
        if keys_match(key, s[i], s[n]) {
            assert(key(s[n - 1]).eq_spec(&key(s[i])));
            assert(key(s[i]).eq_spec(&key(s[n])));
            assert(key(s[n - 1]).eq_spec(&key(s[n])));
        }
    }
}

/// A partition that starts at the first item of `full`, advanced to its end,
/// emits the key run that `full` starts with and leaves the rest pending. It
/// never fails, and ends on the run's last item with the item behind the run
/// looked at.
pub proof fn lemma_drain_emits_run<T, K: PartialEq>(key: spec_fn(T) -> K, full: Seq<T>)
    requires
        full.len() > 0,
    ensures
        1 <= run_len(key, full) <= full.len(),
        drain(key, PartitionView::starting(full[0], second(full)), full.skip(1)) == Some(
            Drained {
                items: full.take(run_len(key, full) as int),
                partition: PartitionView::starting(
                    full[run_len(key, full) - 1],
                    second(full.skip(run_len(key, full) - 1)),
                ).ended(),
                pending: full.skip(run_len(key, full) as int),
            },
        ),
    decreases full.len(),
{
    let p = PartitionView::starting(full[0], second(full));
    let s = full.skip(1);
    let n = run_len(key, full) as int;
    let step = partition_step(key, p, s);
    lemma_run_len_bounds(key, full);
    if wants_successor(key, p) {
        assert(s[0] == full[1]);
        assert(second(s) == step.1.lookahead);
        assert(step.1 == PartitionView::starting(s[0], second(s)));
        assert(step.2 == s.skip(1));
        lemma_drain_emits_run(key, s);
        lemma_run_len_bounds(key, s);
        assert(seq![full[0]] + s.take(n - 1) =~= full.take(n));
        assert(s.skip(n - 1) =~= full.skip(n));
        assert(s.skip(n - 2) =~= full.skip(n - 1));
    } else {
        assert(n == 1);
        assert(step.1 == p.ended());
        assert(partition_step(key, step.1, s).0 == Ok::<Option<T>, FatalInternalError>(
            None,
        ));
        assert(drain(key, step.1, s) == Some(
            Drained { items: Seq::<T>::empty(), partition: step.1, pending: s },
        ));
        assert(seq![full[0]] + Seq::<T>::empty() =~= full.take(1));
        assert(full.skip(0) =~= full);
    }
}

/// A group sequence that takes the first item of `s`, advanced with each
/// partition advanced to its end in between, never fails and produces the key
/// runs of `s`.
proof fn lemma_partition_all<T, K: PartialEq>(key: spec_fn(T) -> K, last: Option<K>, s: Seq<T>)
    requires
        obeys_eq::<K>(),
        s.len() > 0 ==> admits(key, last, s[0]),
    ensures
        partition_all(key, last, s) == Ok::<Seq<Seq<T>>, Failure<K>>(runs(key, s)),
    decreases s.len(),
{
    if s.len() > 0 {
        let n = run_len(key, s) as int;
        let step = group_step(key, last, s);
        lemma_run_len_bounds(key, s);
        assert(step.0 == Ok::<Option<PartitionView<T>>, ContractViolation<K>>(
            Some(PartitionView::starting(s[0], second(s))),
        ));
        assert(step.2 == s.skip(1));
        lemma_drain_emits_run(key, s);
        let rest = s.skip(n);
        if rest.len() > 0 {
            lemma_run_apart(key, s, 0);
            assert(rest[0] == s[n]);
        }
        lemma_partition_all(key, step.1, rest);
    }
}

/// The key runs of `s`, put one behind the other, are `s`.
proof fn lemma_runs_flatten<T, K: PartialEq>(key: spec_fn(T) -> K, s: Seq<T>)
    ensures
        runs(key, s).flatten() == s,
    decreases s.len(),
{
    if s.len() > 0 {
        let n = run_len(key, s) as int;
        lemma_run_len_bounds(key, s);
        lemma_runs_flatten(key, s.skip(n));
        let all = runs(key, s);
        assert(all.first() == s.take(n));
        assert(all.drop_first() =~= runs(key, s.skip(n)));
        assert(s.take(n) + s.skip(n) =~= s);
    } else {
        assert(runs(key, s).flatten() =~= s);
    }
}

/// Partitions are complete and in order. Advancing a fresh group sequence over
/// the items `s` until it reports its end, and each partition to its end
/// before the group sequence is advanced again, never fails, and the items of
/// the partitions, one partition behind the other, are `s`: nothing is lost,
/// doubled or moved.
pub proof fn partitions_reproduce_input<T, K: PartialEq>(key: spec_fn(T) -> K, s: Seq<T>)
    requires
        obeys_eq::<K>(),
    ensures
        partition_all(key, None::<K>, s) == Ok::<Seq<Seq<T>>, Failure<K>>(runs(key, s)),
        runs(key, s).flatten() == s,
{
    lemma_partition_all(key, None::<K>, s);
    lemma_runs_flatten(key, s);
}

/// Every key run of `s` holds an item.
proof fn lemma_runs_hold_items<T, K: PartialEq>(key: spec_fn(T) -> K, s: Seq<T>, i: int)
    requires
        0 <= i < runs(key, s).len(),
    ensures
        runs(key, s)[i].len() > 0,
    decreases s.len(),
{
    let n = run_len(key, s) as int;
    lemma_run_len_bounds(key, s);
    if i > 0 {
        lemma_runs_hold_items(key, s.skip(n), i - 1);
    }
}

/// Any two items at different places of one key run of `s` have matching keys.
proof fn lemma_runs_share_key<T, K: PartialEq>(
    key: spec_fn(T) -> K,
    s: Seq<T>,
    i: int,
    j: int,
    k: int,
)
    requires
        obeys_eq::<K>(),
        0 <= i < runs(key, s).len(),
        0 <= j < runs(key, s)[i].len(),
        0 <= k < runs(key, s)[i].len(),
        j != k,
    ensures
        keys_match(key, runs(key, s)[i][j], runs(key, s)[i][k]),
    decreases s.len(),
{
    let n = run_len(key, s) as int;
    lemma_run_len_bounds(key, s);
    if i > 0 {
        lemma_runs_share_key(key, s.skip(n), i - 1, j, k);
    } else {
        lemma_run_pairwise(key, s, j, k);
    }
}

/// No item of a key run of `s` has a key that equals the key of the first
/// item of the run behind it.
proof fn lemma_runs_apart<T, K: PartialEq>(key: spec_fn(T) -> K, s: Seq<T>, i: int, j: int)
    requires
        obeys_eq::<K>(),
        0 < i < runs(key, s).len(),
        0 <= j < runs(key, s)[i - 1].len(),
    ensures
        runs(key, s)[i].len() > 0,
        !keys_match(key, runs(key, s)[i - 1][j], runs(key, s)[i][0]),
    decreases s.len(),
{
    let n = run_len(key, s) as int;
    let rest = s.skip(n);
    lemma_run_len_bounds(key, s);
    lemma_runs_hold_items(key, s, i);
    if i > 1 {
        lemma_runs_apart(key, rest, i - 1, j);
    } else {
        lemma_run_len_bounds(key, rest);
        assert(runs(key, s)[1] == runs(key, rest)[0]);
        assert(runs(key, rest)[0] == rest.take(run_len(key, rest) as int));
        assert(runs(key, s)[1][0] == s[n]);
        lemma_run_apart(key, s, j);
    }
}

/// Partitions are key runs. In what a fresh group sequence produces over the
/// items `s`, each partition advanced to its end in between: no partition is
/// empty; any two items of one partition have matching keys; and the first
/// item of each partition but the first has a key that equals the key of no
/// item of the partition before it.
pub proof fn partitions_are_key_runs<T, K: PartialEq>(key: spec_fn(T) -> K, s: Seq<T>)
    requires
        obeys_eq::<K>(),
    ensures
        partition_all(key, None::<K>, s) matches Ok(parts) && {
            &&& forall|i: int| 0 <= i < parts.len() ==> (#[trigger] parts[i]).len() > 0
            &&& forall|i: int, j: int, k: int|
                0 <= i < parts.len() && 0 <= j < parts[i].len() && 0 <= k < parts[i].len() && j != k
                    ==> keys_match(key, #[trigger] parts[i][j], #[trigger] parts[i][k])
            &&& forall|i: int, j: int|
                0 < i < parts.len() && 0 <= j < parts[i - 1].len() ==> !keys_match(
                    key,
                    #[trigger] parts[i - 1][j],
                    parts[i][0],
                )
        },
{
    lemma_partition_all(key, None::<K>, s);
    let parts = runs(key, s);
    assert forall|i: int| 0 <= i < parts.len() implies (#[trigger] parts[i]).len() > 0 by {
        lemma_runs_hold_items(key, s, i);
    }
    assert forall|i: int, j: int, k: int|
        0 <= i < parts.len() && 0 <= j < parts[i].len() && 0 <= k < parts[i].len() && j
            != k implies keys_match(key, #[trigger] parts[i][j], #[trigger] parts[i][k]) by {
        lemma_runs_share_key(key, s, i, j, k);
    }
    assert forall|i: int, j: int| 0 < i < parts.len() && 0 <= j < parts[i - 1].len() implies !keys_match(
        key,
        #[trigger] parts[i - 1][j],
        parts[i][0],
    ) by {
        lemma_runs_apart(key, s, i, j);
    }
}

/// A partition that starts at the first item of `s` and is advanced no more
/// often than its key run has further items has taken a pair at each advance.
proof fn lemma_partition_within_run<T, K: PartialEq>(key: spec_fn(T) -> K, s: Seq<T>, m: nat)
    requires
        m < run_len(key, s),
    ensures
        m < s.len(),
        partition_steps(key, PartitionView::starting(s[0], second(s)), s.skip(1), m) == (
            PartitionView::starting(s[m as int], second(s.skip(m as int))),
            s.skip(m as int + 1),
        ),
    decreases m,
{
    lemma_run_len_bounds(key, s);
    if m > 0 {
        let p = PartitionView::starting(s[0], second(s));
        let rest = s.skip(1);
        assert(wants_successor(key, p));
        assert(rest[0] == s[1]);
        assert(partition_step(key, p, rest).1 == PartitionView::starting(rest[0], second(rest)));
        lemma_partition_within_run(key, rest, (m - 1) as nat);
        assert(rest.skip(m - 1) =~= s.skip(m as int));
        assert(rest.skip(1).skip(m - 1) =~= s.skip(m as int + 1));
        assert(rest.skip(m as int) =~= s.skip(m as int + 1));
    } else {
        assert(s.skip(0) =~= s);
    }
}

/// A partition that has emitted its last item stays as it is, however often
/// it is advanced.
proof fn lemma_ended_stays<T, K: PartialEq>(
    key: spec_fn(T) -> K,
    p: PartitionView<T>,
    s: Seq<T>,
    m: nat,
)
    requires
        p.terminated,
    ensures
        partition_steps(key, p, s, m) == (p, s),
    decreases m,
{
    if m > 0 {
        lemma_ended_stays(key, p, s, (m - 1) as nat);
    }
}

/// A partition that starts at the first item of `s` and is live after `m`
/// advances, with a successor of its own key looked at, has not reached the
/// end of its key run.
proof fn lemma_live_within_run<T, K: PartialEq>(key: spec_fn(T) -> K, s: Seq<T>, m: nat)
    requires
        s.len() > 0,
        wants_successor(
            key,
            partition_steps(key, PartitionView::starting(s[0], second(s)), s.skip(1), m).0,
        ),
    ensures
        m + 1 < run_len(key, s),
    decreases m,
{
    let p = PartitionView::starting(s[0], second(s));
    let rest = s.skip(1);
    if wants_successor(key, p) {
        lemma_run_len_bounds(key, rest);
        if m > 0 {
            assert(rest[0] == s[1]);
            assert(partition_step(key, p, rest).1 == PartitionView::starting(rest[0], second(rest)));
            assert(partition_step(key, p, rest).2 == rest.skip(1));
            lemma_live_within_run(key, rest, (m - 1) as nat);
        }
    } else {
        assert(m > 0);
        assert(partition_step(key, p, rest).1 == p.ended());
        lemma_ended_stays(key, p.ended(), rest, (m - 1) as nat);
    }
}

/// An abandoned partition is detected. Let a group sequence with last key
/// `last` produce a partition over the pending items `s`, and let that
/// partition be advanced `m` times, after which it is live and has looked at a
/// successor of its own key. Advancing the group sequence then fails, and the
/// error names the key of that successor, which is item `m + 1` of `s`.
pub proof fn abandoned_partition_is_detected<T, K: PartialEq>(
    key: spec_fn(T) -> K,
    last: Option<K>,
    s: Seq<T>,
    m: nat,
)
    requires
        obeys_eq::<K>(),
        group_step(key, last, s).0 matches Ok(Some(produced)) && wants_successor(
            key,
            partition_steps(key, produced, group_step(key, last, s).2, m).0,
        ),
    ensures
        m + 1 < s.len(),
        group_step(
            key,
            group_step(key, last, s).1,
            partition_steps(key, group_step(key, last, s).0->Ok_0->0, group_step(key, last, s).2, m).1,
        ).0 == Err::<Option<PartitionView<T>>, ContractViolation<K>>(
            ContractViolation { key: key(s[m as int + 1]) },
        ),
{
    assert(s.len() > 0);
    assert(group_step(key, last, s).0->Ok_0->0 == PartitionView::starting(s[0], second(s)));
    assert(group_step(key, last, s).2 == s.skip(1));
    lemma_live_within_run(key, s, m);
    lemma_run_len_bounds(key, s);
    lemma_partition_within_run(key, s, m);
    lemma_run_chain(key, s, m as int + 1);
    let held = partition_steps(key, PartitionView::starting(s[0], second(s)), s.skip(1), m);
    assert(held.1[0] == s[m as int + 1]);
}

} // verus!
