//! The lazy generator of shard indices.
use vstd::prelude::*;

use crate::sequence::{
    all_below, lemma_least_free_in_range, lemma_walk, least_free, shard_seq, walk,
};

verus! {

/// Why a generator or a hasher could not be built.
#[derive(Clone, Copy, Debug, PartialEq, Eq, Structural)]
pub enum ShardError {
    /// The shard count is zero: there is no shard to return.
    Configuration,
    /// The requested size is zero or exceeds the shard count.
    InvalidArgument,
}

/// Generator of shard IDs in preferred query order.
///
/// A `ShardIterator` never returns the same shard ID more than once.
#[derive(Clone)]
pub struct ShardIterator {
    state: u64,
    pos: u64,
    min: u64,
    visited: Vec<u64>,
}

/// Whether `v` holds `x`.
fn holds(v: &Vec<u64>, x: u64) -> (r: bool)
    ensures
        r == v@.contains(x),
{
    let mut i: usize = 0;
    while i < v.len()
        invariant
            i <= v@.len(),
            forall|j: int| 0 <= j < i ==> v@[j] != x,
        decreases v@.len() - i,
    {
        if v[i] == x {
            return true;
        }
        i = i + 1;
    }
    false
}

impl ShardIterator {
    /// The cursor is consistent: the indices emitted so far are distinct and
    /// below the shard count, and the stop position has not been passed.
    pub closed spec fn wf(&self) -> bool {
        &&& self.min <= self.pos
        &&& self.pos + self.visited@.len() <= u64::MAX
        &&& self.visited@.no_duplicates()
        &&& all_below(self.visited@, self.count())
    }

    /// The total number of shards.
    pub closed spec fn count(&self) -> int {
        self.pos + self.visited@.len()
    }

    /// The indices emitted so far, in order.
    pub closed spec fn emitted(&self) -> Seq<u64> {
        self.visited@
    }

    /// How many indices are still to come.
    pub closed spec fn remaining(&self) -> nat {
        (self.pos - self.min) as nat
    }

    /// The whole sequence this generator emits from its creation to its end.
    pub closed spec fn sequence(&self) -> Seq<u64> {
        walk(self.state, self.pos, self.remaining(), self.visited@)
    }

    /// The whole sequence is the emitted part followed by `remaining` more.
    pub proof fn lemma_sequence(&self)
        requires
            self.wf(),
        ensures
            self.sequence().len() == self.emitted().len() + self.remaining(),
            self.sequence().subrange(0, self.emitted().len() as int) == self.emitted(),
            self.sequence().no_duplicates(),
            all_below(self.sequence(), self.count()),
    {
        lemma_walk(self.state, self.pos, self.remaining(), self.visited@);
    }

    /// Create a generator of the first `size` shard IDs out of `pos` shards
    /// for the hash state `state`.
    ///
    /// When `pos` and `size` are equal, this yields a permutation of all the
    /// values between `0` and `pos - 1`.
    pub fn new(state: u64, pos: u64, size: u64) -> (r: Self)
        requires
            1 <= size <= pos,
        ensures
            r.wf(),
            r.count() == pos,
            r.emitted() == Seq::<u64>::empty(),
            r.remaining() == size,
            r.sequence() == shard_seq(state, pos, size as nat),
    {
        ShardIterator { state, pos, min: pos - size, visited: Vec::with_capacity(size as usize) }
    }

    /// Like `new`, but reports a zero shard count or a size outside
    /// `1..=pos` as an error instead of requiring them away.
    pub fn try_new(state: u64, pos: u64, size: u64) -> (r: Result<Self, ShardError>)
        ensures
            pos == 0 <==> r == Err::<Self, ShardError>(ShardError::Configuration),
            (pos > 0 && (size == 0 || size > pos)) <==> r == Err::<Self, ShardError>(
                ShardError::InvalidArgument,
            ),
            r is Ok ==> {
                let it = r->Ok_0;
                &&& it.wf()
                &&& it.count() == pos
                &&& it.emitted() == Seq::<u64>::empty()
                &&& it.remaining() == size
                &&& it.sequence() == shard_seq(state, pos, size as nat)
            },
    {
        if pos == 0 {
            Err(ShardError::Configuration)
        } else if size == 0 || size > pos {
            Err(ShardError::InvalidArgument)
        } else {
            Ok(Self::new(state, pos, size))
        }
    }

    /// The next shard ID, or `None` once `size` IDs have been returned.
    pub fn next(&mut self) -> (r: Option<u64>)
        requires
            old(self).wf(),
        ensures
            final(self).wf(),
            final(self).count() == old(self).count(),
            final(self).sequence() == old(self).sequence(),
            old(self).remaining() == 0 ==> r == None::<u64> && final(self).emitted() == old(
                self,
            ).emitted() && final(self).remaining() == 0,
            old(self).remaining() > 0 ==> r == Some(
                old(self).sequence()[old(self).emitted().len() as int],
            ) && final(self).emitted() == old(self).emitted().push(r->Some_0)
                && final(self).remaining() == old(self).remaining() - 1,
    {
        if self.pos == self.min {
            return None;
        }
        let ghost before = *self;
        proof {
            lemma_least_free_in_range(self.state % self.pos, self.visited@, self.count());
            lemma_walk(
                self.state / self.pos,
                (self.pos - 1) as u64,
                (self.remaining() - 1) as nat,
                self.visited@.push(least_free(self.state % self.pos, self.visited@)),
            );
        }
        // The digit in base `pos`
        let mut ret = self.state % self.pos;
        self.state = self.state / self.pos;
        self.pos = self.pos - 1;
        // Displace it to the next index that is still free
        while holds(&self.visited, ret)
            invariant
                self.visited@ == before.visited@,
                before.state % before.pos <= ret <= least_free(
                    before.state % before.pos,
                    before.visited@,
                ) < before.count(),
                least_free(ret, before.visited@) == least_free(
                    before.state % before.pos,
                    before.visited@,
                ),
                !before.visited@.contains(least_free(before.state % before.pos, before.visited@)),
            decreases least_free(before.state % before.pos, before.visited@) - ret,
        {
            assert(least_free(ret, before.visited@) == least_free((ret + 1) as u64, before.visited@));
            ret = ret + 1;
        }
        assert(ret == least_free(ret, before.visited@));
        self.visited.push(ret);
        proof {
            let next = before.visited@.push(ret);
            assert(self.sequence() == before.sequence());
            assert(self.sequence().subrange(0, next.len() as int)[before.visited@.len() as int] == ret);
        }
        Some(ret)
    }

    /// Bounds on the number of shard IDs still to come, both exact where
    /// the count fits in `usize`.
    pub fn size_hint(&self) -> (r: (usize, Option<usize>))
        requires
            self.wf(),
        ensures
            self.remaining() <= usize::MAX ==> r == (self.remaining() as usize, Some(
                self.remaining() as usize,
            )),
            self.remaining() > usize::MAX ==> r == (usize::MAX, None::<usize>),
    {
        let left = self.pos - self.min;
        if left as u128 > usize::MAX as u128 {
            (usize::MAX, None)
        } else {
            (left as usize, Some(left as usize))
        }
    }

    /// Drain the generator: every shard ID still to come, in order.
    pub fn collect(self) -> (r: Vec<u64>)
        requires
            self.wf(),
        ensures
            r@ == self.sequence().subrange(
                self.emitted().len() as int,
                self.sequence().len() as int,
            ),
    {
        let mut it = self;
        let mut out: Vec<u64> = Vec::new();
        proof {
            it.lemma_sequence();
        }
        while it.pos > it.min
            invariant
                it.wf(),
                it.sequence() == self.sequence(),
                self.emitted().len() <= it.emitted().len(),
                it.emitted().len() + it.remaining() == self.sequence().len(),
                out@ == self.sequence().subrange(
                    self.emitted().len() as int,
                    it.emitted().len() as int,
                ),
            decreases it.remaining(),
        {
            let x = it.next();
            match x {
                Some(v) => {
                    out.push(v);
                    assert(out@ =~= self.sequence().subrange(
                        self.emitted().len() as int,
                        it.emitted().len() as int,
                    ));
                },
                None => {},
            }
        }
        out
    }
}

/// Determinism: two generators started from the same hash state, shard
/// count and size that have been advanced equally often have emitted the
/// same shard IDs and have the same number left.
pub proof fn lemma_deterministic(
    a: ShardIterator,
    b: ShardIterator,
    state: u64,
    count: u64,
    size: nat,
)
    requires
        a.wf(),
        b.wf(),
        a.sequence() == shard_seq(state, count, size),
        b.sequence() == shard_seq(state, count, size),
        a.emitted().len() == b.emitted().len(),
    ensures
        a.emitted() == b.emitted(),
        a.remaining() == b.remaining(),
{
    a.lemma_sequence();
    b.lemma_sequence();
}

} // verus!
