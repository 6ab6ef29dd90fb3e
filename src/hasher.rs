//! A hasher that turns a key into the seed of a shard ordering.
use vstd::prelude::*;

use std::collections::hash_map::DefaultHasher;
use std::hash::Hasher;
use vstd::std_specs::hash::DefaultHasherAdditionalSpecFns;

use crate::iterator::{ShardError, ShardIterator};
use crate::sequence::shard_seq;

verus! {

/// Hasher that can be turned into a [`ShardIterator`] over `count` shards.
pub struct ShardHasher {
    count: u64,
    hasher: DefaultHasher,
}

impl ShardHasher {
    /// The hasher is usable: there is at least one shard.
    pub closed spec fn wf(&self) -> bool {
        self.count > 0
    }

    /// The total number of shards.
    pub closed spec fn count(&self) -> u64 {
        self.count
    }

    /// The byte strings written so far, in order.
    pub closed spec fn written(&self) -> Seq<Seq<u8>> {
        self.hasher@
    }

    /// The hash state that the bytes written so far give.
    pub open spec fn digest(&self) -> u64 {
        DefaultHasher::spec_finish(self.written())
    }

    /// Create a new `ShardHasher` over `count` shards, with nothing written.
    pub fn new(count: u64) -> (r: Self)
        requires
            count > 0,
        ensures
            r.wf(),
            r.count() == count,
            r.written() == Seq::<Seq<u8>>::empty(),
    {
        ShardHasher { count, hasher: DefaultHasher::new() }
    }

    /// Like `new`, but reports a zero shard count as an error.
    pub fn try_new(count: u64) -> (r: Result<Self, ShardError>)
        ensures
            count == 0 <==> r == Err::<Self, ShardError>(ShardError::Configuration),
            r is Ok ==> {
                let h = r->Ok_0;
                &&& h.wf()
                &&& h.count() == count
                &&& h.written() == Seq::<Seq<u8>>::empty()
            },
    {
        if count == 0 {
            Err(ShardError::Configuration)
        } else {
            Ok(Self::new(count))
        }
    }

    /// Feed `bytes` into the hash.
    pub fn write(&mut self, bytes: &[u8])
        ensures
            final(self).count() == old(self).count(),
            final(self).wf() == old(self).wf(),
            final(self).written() == old(self).written().push(bytes@),
    {
        self.hasher.write(bytes);
    }

    /// The hash state of the bytes written so far; the hasher is unchanged.
    pub fn finish(&self) -> (r: u64)
        ensures
            r == self.digest(),
    {
        self.hasher.finish()
    }

    /// A [`ShardIterator`] that returns only the first `size` shard IDs.
    pub fn into_sized_iter(self, size: u64) -> (r: ShardIterator)
        requires
            self.wf(),
            1 <= size <= self.count(),
        ensures
            r.wf(),
            r.count() == self.count(),
            r.emitted() == Seq::<u64>::empty(),
            r.remaining() == size,
            r.sequence() == shard_seq(self.digest(), self.count(), size as nat),
    {
        ShardIterator::new(self.finish(), self.count, size)
    }

    /// A [`ShardIterator`] over a permutation of all shard IDs.
    pub fn into_iter(self) -> (r: ShardIterator)
        requires
            self.wf(),
        ensures
            r.wf(),
            r.count() == self.count(),
            r.emitted() == Seq::<u64>::empty(),
            r.remaining() == self.count(),
            r.sequence() == shard_seq(self.digest(), self.count(), self.count() as nat),
    {
        let count = self.count;
        ShardIterator::new(self.finish(), count, count)
    }
}

} // verus!
