//! One counting session: the resident table plus the overflow log.
use vstd::prelude::*;
use vstd::multiset::Multiset;
use crate::entry::{Entry, all_positive, concat, count_of, count_in, lemma_count_of_append, lemma_concat_update};
use crate::bucket::lemma_add_keeps_counts;
use crate::counter::{StackHashCounter, bucket_index, BUCKETS};
use crate::log::{TempFdArray, BUFFER_LENGTH, RECORD_SIZE, encode, decode, lemma_decode_encode};

verus! {

/// A counting session. Entries evicted from the table go to the log; no
/// occurrence is ever dropped, only spread over several entries of one key.
///
/// An entry evicted while the staging buffer is full waits in a pending slot
/// until the caller has written the staged block out (`pending_block`, then
/// `mark_flushed`).
pub struct Collector<T> {
    map: StackHashCounter<T>,
    temp_array: TempFdArray<Entry<T>>,
    pending: Option<Entry<T>>,
    added: Ghost<Multiset<T>>,
}

/// The entries of an optional entry.
pub open spec fn opt_seq(e: Option<Entry<usize>>) -> Seq<Entry<usize>> {
    match e {
        Some(e) => seq![e],
        None => Seq::empty(),
    }
}

impl Collector<usize> {
    /// The resident entries, bucket by bucket.
    pub closed spec fn table(&self) -> Seq<Seq<Entry<usize>>> {
        self.map@
    }

    /// The logged entries already handed to storage, in push order.
    pub closed spec fn flushed(&self) -> Seq<Entry<usize>> {
        self.temp_array.flushed()
    }

    /// The logged entries still staged, in push order.
    pub closed spec fn staged(&self) -> Seq<Entry<usize>> {
        self.temp_array.staged()
    }

    /// The evicted entry waiting for room in the staging buffer, if any.
    pub closed spec fn pending(&self) -> Option<Entry<usize>> {
        self.pending
    }

    /// The keys counted so far, each as often as it was counted.
    pub closed spec fn added(&self) -> Multiset<usize> {
        self.added@
    }

    /// Every entry the session holds: resident ones, then the log, then the
    /// pending one.
    pub open spec fn entries(&self) -> Seq<Entry<usize>> {
        concat(self.table()) + self.flushed() + self.staged() + opt_seq(self.pending())
    }

    /// The table and the log are each well formed.
    pub closed spec fn parts_ok(&self) -> bool {
        &&& self.map.wf()
        &&& self.temp_array.wf()
    }

    /// The parts are well formed, every entry has a positive count, and for
    /// every key the counts of its entries add up to the number of times it
    /// was counted.
    pub open spec fn wf(&self) -> bool {
        &&& self.parts_ok()
        &&& self.table().len() >= 1
        &&& all_positive(self.entries())
        &&& forall|k: usize| #[trigger] count_of(self.entries(), k) == self.added().count(k)
    }

    /// A fresh session: `n` empty buckets, an empty log, nothing pending.
    pub fn with_buckets(n: usize) -> (c: Self)
        requires
            n >= 1,
        ensures
            c.wf(),
            c.table().len() == n,
            c.entries() == Seq::<Entry<usize>>::empty(),
            c.pending() == None::<Entry<usize>>,
            c.added() == Multiset::<usize>::empty(),
    {
        let map = StackHashCounter::new(n);
        let temp_array = TempFdArray::new();
        let c = Collector { map, temp_array, pending: None, added: Ghost(Multiset::empty()) };
        proof {
            lemma_concat_empty(c.table());
            assert(c.entries() =~= Seq::<Entry<usize>>::empty());
        }
        c
    }

    /// A fresh session with `BUCKETS` buckets.
    pub fn new() -> (c: Self)
        ensures
            c.wf(),
            c.table().len() == BUCKETS,
            c.entries() == Seq::<Entry<usize>>::empty(),
            c.pending() == None::<Entry<usize>>,
            c.added() == Multiset::<usize>::empty(),
    {
        Self::with_buckets(BUCKETS)
    }

    /// Whether an evicted entry waits for the staged block to be written out.
    pub fn needs_flush(&self) -> (r: bool)
        requires
            self.wf(),
        ensures
            r == self.pending() is Some,
    {
        self.pending.is_some()
    }

    /// Counts one occurrence of `key`. The table routes it to its bucket; an
    /// entry that bucket gives up is staged in the log, or, when the staging
    /// buffer is full, kept pending until the next `mark_flushed`. Returns
    /// `false`, and changes nothing, only while an entry is already pending.
    pub fn add(&mut self, key: usize) -> (r: bool)
        requires
            old(self).wf(),
        ensures
            final(self).wf(),
            r == old(self).pending() is None,
            !r ==> *final(self) == *old(self),
            r ==> final(self).added() == old(self).added().insert(key),
            r ==> final(self).flushed() == old(self).flushed(),
            r ==> final(self).table() == old(self).table().update(
                bucket_index(key, old(self).table().len()),
                final(self).table()[bucket_index(key, old(self).table().len())],
            ),
            r ==> exists|ev: Option<Entry<usize>>|
                #![trigger with_evicted(old(self).staged(), ev)]
                {
                    &&& crate::bucket::add_result(
                        old(self).table()[bucket_index(key, old(self).table().len())],
                        key,
                        final(self).table()[bucket_index(key, old(self).table().len())],
                        ev,
                    )
                    &&& if old(self).staged().len() < BUFFER_LENGTH {
                        &&& final(self).staged() == with_evicted(old(self).staged(), ev)
                        &&& final(self).pending() == None::<Entry<usize>>
                    } else {
                        &&& final(self).staged() == old(self).staged()
                        &&& final(self).pending() == ev
                    }
                },
    {
        if self.pending.is_some() {
            return false;
        }
        proof {
            self.temp_array.lemma_staged_len();
        }
        let ghost old_table = self.map@;
        let ghost old_staged = self.temp_array.staged();
        let ev = self.map.add(key);
        match ev {
            Some(e) => {
                if !self.temp_array.push(e) {
                    self.pending = Some(e);
                }
            },
            None => {},
        }
        self.added = Ghost(self.added@.insert(key));
        proof {
            let i = bucket_index(key, old_table.len());
            assert(self.map@ == old_table.update(i, self.map@[i]));
            let tail = self.staged() + opt_seq(self.pending());
            let old_tail = old_staged + opt_seq(old(self).pending());
            assert(self.entries() =~= concat(self.map@) + self.flushed() + tail);
            assert(old(self).entries() =~= concat(old_table) + old(self).flushed() + old_tail);
            assert forall|k: usize| #[trigger] count_of(self.entries(), k) == self.added().count(k) by {
                lemma_add_keeps_counts(old_table[i], key, self.map@[i], ev, k);
                lemma_concat_update(old_table, i, self.map@[i], k);
                lemma_count_of_append(concat(self.map@), self.flushed(), k);
                lemma_count_of_append(concat(self.map@) + self.flushed(), tail, k);
                lemma_count_of_append(concat(old_table), old(self).flushed(), k);
                lemma_count_of_append(concat(old_table) + old(self).flushed(), old_tail, k);
                assert(old_tail =~= old_staged);
                match ev {
                    Some(e) => {
                        if old_staged.len() < BUFFER_LENGTH {
                            assert(tail =~= old_staged.push(e));
                            assert(tail.drop_last() =~= old_staged);
                        } else {
                            assert(tail =~= old_staged + seq![e]);
                            lemma_count_of_append(old_staged, seq![e], k);
                            assert(seq![e].drop_last() =~= Seq::<Entry<usize>>::empty());
                            assert(seq![e].last() == e);
                            assert(count_of(seq![e], k) == count_of(Seq::<Entry<usize>>::empty(), k) + count_in(e, k));
                        }
                        assert(count_of(tail, k) == count_of(old_staged, k) + count_in(e, k));
                    },
                    None => {
                        assert(tail =~= old_staged);
                    },
                }
                assert(count_of(old(self).entries(), k) == old(self).added().count(k));
            }
            lemma_positive_append(concat(old_table) + old(self).flushed(), old_tail);
            lemma_positive_append(concat(old_table), old(self).flushed());
            lemma_concat_positive(self.map@);
            crate::bucket::lemma_evicted_positive(old_table[i], key, self.map@[i], ev);
            match ev {
                Some(e) => {
                    assert(all_positive(tail));
                },
                None => {
                    assert(tail =~= old_staged);
                },
            }
            lemma_positive_append(concat(self.map@), self.flushed());
            lemma_positive_append(concat(self.map@) + self.flushed(), tail);
            assert(with_evicted(old_staged, ev) == with_evicted(old(self).staged(), ev));
        }
        true
    }

    /// The records of the staged entries, to be appended to storage.
    pub fn pending_block(&self) -> (r: Vec<u8>)
        requires
            self.wf(),
        ensures
            r@ == encode(self.staged()),
    {
        self.temp_array.pending_block()
    }

    /// Records that the block of `pending_block` now stands in storage: the
    /// staged entries join the flushed ones, and the pending entry, if any,
    /// is staged in the emptied buffer.
    pub fn mark_flushed(&mut self)
        requires
            old(self).wf(),
        ensures
            final(self).wf(),
            final(self).table() == old(self).table(),
            final(self).added() == old(self).added(),
            final(self).flushed() == old(self).flushed() + old(self).staged(),
            final(self).staged() == opt_seq(old(self).pending()),
            final(self).pending() == None::<Entry<usize>>,
            final(self).entries() == old(self).entries(),
    {
        self.temp_array.mark_flushed();
        match self.pending {
            Some(e) => {
                self.temp_array.push(e);
                self.pending = None;
                assert(self.staged() =~= opt_seq(old(self).pending()));
            },
            None => {
                assert(self.staged() =~= opt_seq(old(self).pending()));
            },
        }
        assert(self.entries() =~= old(self).entries());
    }

    /// Everything the session counted, given what storage holds: the
    /// resident entries, then the entries of the stored records in write
    /// order, then the staged entries in push order, then the pending one.
    /// `None` when storage does not hold whole records. When storage holds
    /// exactly the flushed entries, every count is positive and each key's
    /// counts add up to the number of times it was counted.
    pub fn iter(&self, file: &Vec<u8>) -> (r: Option<Vec<Entry<usize>>>)
        requires
            self.wf(),
        ensures
            file@.len() % (RECORD_SIZE as nat) != 0 ==> r == None::<Vec<Entry<usize>>>,
            file@.len() % (RECORD_SIZE as nat) == 0 ==> r is Some && r->Some_0@ == concat(
                self.table(),
            ) + decode(file@) + self.staged() + opt_seq(self.pending()),
            file@ == encode(self.flushed()) ==> r is Some && r->Some_0@ == self.entries(),
            file@ == encode(self.flushed()) ==> r is Some && all_positive(r->Some_0@),
            file@ == encode(self.flushed()) ==> r is Some && forall|k: usize|
                #[trigger] count_of(r->Some_0@, k) == self.added().count(k),
    {
        proof {
            lemma_decode_encode(self.flushed());
        }
        let resident = self.map.iter();
        match self.temp_array.iter(file) {
            None => None,
            Some(logged) => {
                let mut out = resident;
                let mut logged = logged;
                out.append(&mut logged);
                match self.pending {
                    Some(e) => out.push(e),
                    None => {},
                }
                proof {
                    assert(out@ =~= concat(self.table()) + decode(file@) + self.staged() + opt_seq(
                        self.pending(),
                    ));
                    if file@ == encode(self.flushed()) {
                        assert(out@ =~= self.entries());
                    }
                }
                Some(out)
            },
        }
    }
}

/// No occurrence is lost: in a well-formed session, for every key `k`, the
/// counts of the entries holding `k` add up to the number of times `k` was
/// counted.
pub proof fn lemma_sum_invariant(c: &Collector<usize>, k: usize)
    requires
        c.wf(),
    ensures
        count_of(c.entries(), k) == c.added().count(k),
{
}

/// The staged entries after the entry `ev` given up by the table, if any,
/// was staged.
pub open spec fn with_evicted(s: Seq<Entry<usize>>, ev: Option<Entry<usize>>) -> Seq<Entry<usize>> {
    match ev {
        Some(e) => s.push(e),
        None => s,
    }
}

/// Every entry of `a + b` has a positive count exactly when every entry of
/// `a` and every entry of `b` has.
proof fn lemma_positive_append(a: Seq<Entry<usize>>, b: Seq<Entry<usize>>)
    ensures
        all_positive(a + b) <==> all_positive(a) && all_positive(b),
{
    if all_positive(a) && all_positive(b) {
        assert forall|i: int| 0 <= i < (a + b).len() implies #[trigger] (a + b)[i].count >= 1 by {
            if i >= a.len() {
                assert((a + b)[i] == b[i - a.len()]);
            }
        }
    }
    if all_positive(a + b) {
        assert forall|i: int| 0 <= i < b.len() implies #[trigger] b[i].count >= 1 by {
            assert((a + b)[i + a.len()] == b[i]);
        }
        assert forall|i: int| 0 <= i < a.len() implies #[trigger] a[i].count >= 1 by {
            assert((a + b)[i] == a[i]);
        }
    }
}

/// A table whose buckets hold positive counts holds positive counts.
proof fn lemma_concat_positive(ss: Seq<Seq<Entry<usize>>>)
    requires
        forall|i: int| 0 <= i < ss.len() ==> all_positive(#[trigger] ss[i]),
    ensures
        all_positive(concat(ss)),
    decreases ss.len(),
{
    if ss.len() > 0 {
        lemma_concat_positive(ss.drop_last());
        lemma_positive_append(concat(ss.drop_last()), ss.last());
    }
}

/// A table of empty buckets holds no entries.
proof fn lemma_concat_empty(ss: Seq<Seq<Entry<usize>>>)
    requires
        forall|i: int| 0 <= i < ss.len() ==> #[trigger] ss[i] == Seq::<Entry<usize>>::empty(),
    ensures
        concat(ss) == Seq::<Entry<usize>>::empty(),
    decreases ss.len(),
{
    if ss.len() > 0 {
        lemma_concat_empty(ss.drop_last());
        assert(concat(ss) =~= Seq::<Entry<usize>>::empty());
    }
}

} // verus!
