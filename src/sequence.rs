//! The mathematical model of a shard ordering and the laws it obeys.
//!
//! A hash state is read as a mixed-radix number: the step that starts with
//! `pos` shards left to choose takes the digit `state % pos` and keeps
//! `state / pos` for the steps after it. A digit that is already taken is
//! displaced upwards to the first shard that is still free.
use vstd::prelude::*;

verus! {

/// The smallest value `v >= d` that does not occur in `used`
/// (the scan stops at `u64::MAX`).
pub open spec fn least_free(d: u64, used: Seq<u64>) -> u64
    decreases u64::MAX - d,
{
    if d < u64::MAX && used.contains(d) {
        least_free((d + 1) as u64, used)
    } else {
        d
    }
}

/// The indices emitted after `steps` more steps, starting from the cursor
/// `(state, pos)` that has already emitted `used`.
pub open spec fn walk(state: u64, pos: u64, steps: nat, used: Seq<u64>) -> Seq<u64>
    decreases steps,
{
    if steps == 0 || pos == 0 {
        used
    } else {
        walk(
            state / pos,
            (pos - 1) as u64,
            (steps - 1) as nat,
            used.push(least_free(state % pos, used)),
        )
    }
}

/// The first `size` shard indices, out of `count` shards, for the hash state
/// `state`.
pub open spec fn shard_seq(state: u64, count: u64, size: nat) -> Seq<u64> {
    walk(state, count, size, Seq::empty())
}

/// Every index in `s` lies below `bound`.
pub open spec fn all_below(s: Seq<u64>, bound: int) -> bool {
    forall|i: int| 0 <= i < s.len() ==> (#[trigger] s[i]) < bound
}

/// A sequence without repetitions whose items all occur in `b` is no longer
/// than `b`.
proof fn lemma_pigeonhole(a: Seq<u64>, b: Seq<u64>)
    requires
        a.no_duplicates(),
        forall|i: int| 0 <= i < a.len() ==> b.contains(#[trigger] a[i]),
    ensures
        a.len() <= b.len(),
{
    a.unique_seq_to_set();
    b.lemma_cardinality_of_set();
    assert(a.to_set().subset_of(b.to_set())) by {
        assert forall|x: u64| a.to_set().contains(x) implies b.to_set().contains(x) by {
            let i = a.index_of(x);
            assert(b.contains(a[i]));
        }
    }
    vstd::seq_lib::seq_to_set_is_finite(b);
    vstd::set_lib::lemma_len_subset(a.to_set(), b.to_set());
}

/// Appending an index that is not yet there keeps a sequence free of
/// repetitions.
proof fn lemma_push_fresh(used: Seq<u64>, x: u64)
    requires
        used.no_duplicates(),
        !used.contains(x),
    ensures
        used.push(x).no_duplicates(),
{
    let next = used.push(x);
    assert forall|i: int, j: int|
        0 <= i < next.len() && 0 <= j < next.len() && i != j implies next[i] != next[j] by {
        if i == used.len() {
            assert(used.contains(next[j]));
        } else if j == used.len() {
            assert(used.contains(next[i]));
        }
    }
}

/// What the upward scan of `least_free` passes over and where it stops.
proof fn lemma_least_free_scan(d: u64, used: Seq<u64>)
    ensures
        d <= least_free(d, used),
        least_free(d, used) < u64::MAX ==> !used.contains(least_free(d, used)),
        forall|u: u64| d <= u < least_free(d, used) ==> used.contains(u),
    decreases u64::MAX - d,
{
    if d < u64::MAX && used.contains(d) {
        lemma_least_free_scan((d + 1) as u64, used);
    }
}

/// A digit drawn below `pos`, where `pos` shards out of `n` are still free,
/// is displaced to a free shard below `n`.
pub proof fn lemma_least_free_in_range(d: u64, used: Seq<u64>, n: int)
    requires
        d + used.len() < n <= u64::MAX,
        all_below(used, n),
    ensures
        d <= least_free(d, used) < n,
        !used.contains(least_free(d, used)),
{
    lemma_least_free_scan(d, used);
    let v = least_free(d, used);
    if v >= n {
        let run = Seq::new((n - d) as nat, |i: int| (d + i) as u64);
        assert(run.no_duplicates());
        assert forall|i: int| 0 <= i < run.len() implies used.contains(#[trigger] run[i]) by {
            assert(d <= run[i] < v);
        }
        lemma_pigeonhole(run, used);
    }
}

/// The facts that each step of a walk keeps: the emitted indices grow by
/// one distinct in-range index per step, and what was emitted stays.
pub proof fn lemma_walk(state: u64, pos: u64, steps: nat, used: Seq<u64>)
    requires
        steps <= pos,
        pos + used.len() <= u64::MAX,
        used.no_duplicates(),
        all_below(used, pos + used.len()),
    ensures
        walk(state, pos, steps, used).len() == used.len() + steps,
        walk(state, pos, steps, used).no_duplicates(),
        all_below(walk(state, pos, steps, used), pos + used.len()),
        walk(state, pos, steps, used).subrange(0, used.len() as int) == used,
    decreases steps,
{
    let w = walk(state, pos, steps, used);
    if steps == 0 || pos == 0 {
        assert(w.subrange(0, used.len() as int) =~= used);
    } else {
        let n = pos + used.len();
        let x = least_free(state % pos, used);
        lemma_least_free_in_range(state % pos, used, n);
        let next = used.push(x);
        lemma_push_fresh(used, x);
        assert(all_below(next, n));
        lemma_walk(state / pos, (pos - 1) as u64, (steps - 1) as nat, next);
        assert(w.subrange(0, next.len() as int).subrange(0, used.len() as int) =~= w.subrange(
            0,
            used.len() as int,
        ));
        assert(next.subrange(0, used.len() as int) =~= used);
    }
}

/// Walking fewer steps from the same cursor gives a prefix of walking more.
pub proof fn lemma_walk_prefix(state: u64, pos: u64, k1: nat, k2: nat, used: Seq<u64>)
    requires
        k2 <= k1 <= pos,
        pos + used.len() <= u64::MAX,
        used.no_duplicates(),
        all_below(used, pos + used.len()),
    ensures
        walk(state, pos, k2, used) == walk(state, pos, k1, used).subrange(
            0,
            (used.len() + k2) as int,
        ),
    decreases k2,
{
    if k2 == 0 {
        lemma_walk(state, pos, k1, used);
    } else {
        let n = pos + used.len();
        let x = least_free(state % pos, used);
        lemma_least_free_in_range(state % pos, used, n);
        let next = used.push(x);
        lemma_push_fresh(used, x);
        lemma_walk_prefix(state / pos, (pos - 1) as u64, (k1 - 1) as nat, (k2 - 1) as nat, next);
    }
}

/// Distinctness: the first `size` indices for any hash state are `size`
/// pairwise distinct shards, each below `count`.
pub proof fn lemma_distinct_in_range(state: u64, count: u64, size: nat)
    requires
        size <= count,
    ensures
        shard_seq(state, count, size).len() == size,
        shard_seq(state, count, size).no_duplicates(),
        all_below(shard_seq(state, count, size), count as int),
{
    lemma_walk(state, count, size, Seq::empty());
}

/// Prefix consistency: asking for fewer indices gives a prefix of asking for
/// more, for the same hash state and shard count.
pub proof fn lemma_prefix_consistent(state: u64, count: u64, r1: nat, r2: nat)
    requires
        r2 <= r1 <= count,
    ensures
        shard_seq(state, count, r2) == shard_seq(state, count, r1).subrange(0, r2 as int),
{
    lemma_walk_prefix(state, count, r1, r2, Seq::empty());
}

/// Full permutation: asking for all `count` indices yields every shard below
/// `count` exactly once.
pub proof fn lemma_full_permutation(state: u64, count: u64)
    ensures
        shard_seq(state, count, count as nat).len() == count,
        shard_seq(state, count, count as nat).no_duplicates(),
        forall|x: u64| x < count <==> shard_seq(state, count, count as nat).contains(x),
{
    let s = shard_seq(state, count, count as nat);
    lemma_distinct_in_range(state, count, count as nat);
    assert forall|x: u64| x < count implies s.contains(x) by {
        if !s.contains(x) {
            let others = Seq::new((count - 1) as nat, |i: int| if i < x { i as u64 } else { (i + 1) as u64 });
            assert forall|i: int| 0 <= i < s.len() implies others.contains(#[trigger] s[i]) by {
                if s[i] < x {
                    assert(others[s[i] as int] == s[i]);
                } else {
                    assert(s[i] != x);
                    assert(others[s[i] - 1] == s[i]);
                }
            }
            lemma_pigeonhole(s, others);
        }
    }
    assert forall|x: u64| s.contains(x) implies x < count by {
        assert(s[s.index_of(x)] < count);
    }
}

} // verus!
