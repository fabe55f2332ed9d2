//! The resident table: a fixed array of buckets, routed by key hash.
use vstd::prelude::*;
use vstd::bytes::{spec_u64_to_le_bytes, u64_to_le_bytes};
use vstd::std_specs::hash::DefaultHasherAdditionalSpecFns;
use std::collections::hash_map::DefaultHasher;
use std::hash::Hasher;
use crate::entry::{Entry, concat};
use crate::bucket::{Bucket, BucketIterator, add_result};

verus! {

/// Number of buckets of a table made by `default`.
pub const BUCKETS: usize = 64;

/// The hash of a key: what a hasher made by `DefaultHasher::new` finishes
/// with after being fed the key's eight little-endian bytes.
pub open spec fn key_hash(key: usize) -> u64 {
    DefaultHasher::spec_finish(seq![spec_u64_to_le_bytes(key as u64)])
}

/// The bucket that `key` is routed to in a table of `n` buckets.
pub open spec fn bucket_index(key: usize, n: nat) -> int {
    (key_hash(key) as nat % n) as int
}

/// A fixed array of buckets; a key always goes to the same bucket.
pub struct StackHashCounter<T> {
    buckets: Vec<Bucket<T>>,
}

impl View for StackHashCounter<usize> {
    type V = Seq<Seq<Entry<usize>>>;

    /// The occupied slots of each bucket, bucket by bucket.
    closed spec fn view(&self) -> Seq<Seq<Entry<usize>>> {
        self.buckets@.map_values(|b: Bucket<usize>| b@)
    }
}

impl StackHashCounter<usize> {
    /// Every bucket is well formed.
    pub closed spec fn buckets_ok(&self) -> bool {
        forall|i: int| 0 <= i < self.buckets@.len() ==> #[trigger] self.buckets@[i].wf()
    }

    /// At least one bucket, each holding at most `BUCKETS_ASSOCIATIVITY`
    /// entries with distinct keys and positive counts.
    pub open spec fn wf(&self) -> bool {
        &&& self.buckets_ok()
        &&& self@.len() >= 1
        &&& forall|i: int| 0 <= i < self@.len() ==> bucket_ok(#[trigger] self@[i])
    }

    /// A table of `n` empty buckets.
    pub fn new(n: usize) -> (c: Self)
        requires
            n >= 1,
        ensures
            c.wf(),
            c@.len() == n,
            forall|i: int| 0 <= i < n ==> #[trigger] c@[i] == Seq::<Entry<usize>>::empty(),
    {
        let mut buckets: Vec<Bucket<usize>> = Vec::new();
        let mut i: usize = 0;
        while i < n
            invariant
                i <= n,
                buckets@.len() == i,
                forall|j: int| 0 <= j < i ==> (#[trigger] buckets@[j]).wf() && buckets@[j]@
                    == Seq::<Entry<usize>>::empty(),
            decreases n - i,
        {
            buckets.push(Bucket::new());
            i += 1;
        }
        StackHashCounter { buckets }
    }

    /// The hash of `key` that picks its bucket.
    fn hash(key: &usize) -> (r: u64)
        ensures
            r == key_hash(*key),
    {
        let mut s = DefaultHasher::new();
        let bytes = u64_to_le_bytes(*key as u64);
        s.write(bytes.as_slice());
        s.finish()
    }

    /// Number of buckets.
    pub fn num_buckets(&self) -> (r: usize)
        ensures
            r == self@.len(),
    {
        self.buckets.len()
    }

    /// Counts one occurrence of `key` in bucket `bucket_index(key, N)`;
    /// returns the entry that bucket gave up, if any. No other bucket changes.
    pub fn add(&mut self, key: usize) -> (r: Option<Entry<usize>>)
        requires
            old(self).wf(),
        ensures
            final(self).wf(),
            final(self)@.len() == old(self)@.len(),
            ({
                let i = bucket_index(key, old(self)@.len());
                &&& add_result(old(self)@[i], key, final(self)@[i], r)
                &&& final(self)@ == old(self)@.update(i, final(self)@[i])
            }),
    {
        let hash_value = Self::hash(&key);
        let n = self.buckets.len();
        let index = (hash_value % (n as u64)) as usize;
        let r = self.buckets[index].add(key);
        let ghost i = bucket_index(key, old(self)@.len());
        assert(index == i);
        assert(self@ =~= old(self)@.update(i, self@[i]));
        r
    }

    /// All resident entries: each bucket's occupied slots in slot order,
    /// bucket after bucket. The table is not changed.
    pub fn iter(&self) -> (r: Vec<Entry<usize>>)
        requires
            self.wf(),
        ensures
            r@ == concat(self@),
    {
        let mut out: Vec<Entry<usize>> = Vec::new();
        let mut b: usize = 0;
        while b < self.buckets.len()
            invariant
                self.wf(),
                b <= self@.len(),
                out@ == concat(self@.subrange(0, b as int)),
            decreases self@.len() - b,
        {
            let mut it: BucketIterator<'_, usize> = self.buckets[b].iter();
            let ghost start = out@;
            loop
                invariant
                    self.wf(),
                    b < self@.len(),
                    it.bucket() == &self.buckets@[b as int],
                    it.index() <= self@[b as int].len(),
                    out@ == start + self@[b as int].subrange(0, it.index() as int),
                ensures
                    out@ == start + self@[b as int],
                decreases self@[b as int].len() - it.index(),
            {
                match it.next() {
                    Some(e) => out.push(*e),
                    None => {
                        assert(self@[b as int].subrange(0, it.index() as int) =~= self@[b as int]);
                        break;
                    },
                }
            }
            assert(self@.subrange(0, b + 1).drop_last() =~= self@.subrange(0, b as int));
            b += 1;
        }
        assert(self@.subrange(0, self@.len() as int) =~= self@);
        out
    }
}

/// Listing the resident entries is repeatable: two listings of one table,
/// with no `add` between them, hold the same entries in the same order.
pub proof fn lemma_iter_repeatable(c: &StackHashCounter<usize>, first: Seq<Entry<usize>>, second: Seq<Entry<usize>>)
    requires
        first == concat(c@),
        second == concat(c@),
    ensures
        first == second,
{
}

/// The occupied slots of a well-formed bucket.
pub open spec fn bucket_ok(s: Seq<Entry<usize>>) -> bool {
    &&& s.len() <= crate::bucket::BUCKETS_ASSOCIATIVITY
    &&& crate::bucket::distinct_keys(s)
    &&& forall|i: int| 0 <= i < s.len() ==> s[i].count >= 1
}

impl Default for StackHashCounter<usize> {
    /// A table of `BUCKETS` empty buckets.
    fn default() -> (c: Self)
        ensures
            c.wf(),
            c@.len() == BUCKETS,
            forall|i: int| 0 <= i < BUCKETS ==> #[trigger] c@[i] == Seq::<Entry<usize>>::empty(),
    {
        Self::new(BUCKETS)
    }
}

} // verus!
