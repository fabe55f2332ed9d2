//! A fixed-capacity associative set of counted entries.
use vstd::prelude::*;
use crate::entry::{Entry, all_positive, count_of, count_opt, lemma_count_of_update};

verus! {

/// Number of slots in each bucket.
pub const BUCKETS_ASSOCIATIVITY: usize = 4;

/// The keys of the entries of `s` are pairwise distinct.
pub open spec fn distinct_keys(s: Seq<Entry<usize>>) -> bool {
    forall|i: int, j: int| 0 <= i < s.len() && 0 <= j < s.len() && i != j ==> s[i].item != s[j].item
}

/// Some entry of `s` holds key `key`.
pub open spec fn has_key(s: Seq<Entry<usize>>, key: usize) -> bool {
    exists|i: int| 0 <= i < s.len() && s[i].item == key
}

/// A slot of `s` holding `key`, where there is one.
pub open spec fn key_slot(s: Seq<Entry<usize>>, key: usize) -> int {
    choose|i: int| 0 <= i < s.len() && s[i].item == key
}

/// `m` is the first slot of `s` holding a minimum count.
pub open spec fn first_min(s: Seq<Entry<usize>>, m: int) -> bool {
    &&& 0 <= m < s.len()
    &&& forall|j: int| 0 <= j < m ==> s[j].count > s[m].count
    &&& forall|j: int| 0 <= j < s.len() ==> s[m].count <= s[j].count
}

/// A fresh entry for `key`.
pub open spec fn fresh(key: usize) -> Entry<usize> {
    Entry { item: key, count: 1 }
}

/// What adding `key` to a bucket holding `old` does: `new` is what it then
/// holds and `r` the entry it gives up, if any.
///
/// A resident key has its count raised by one; a count that cannot be raised
/// any further leaves the bucket whole and a fresh entry takes its slot, so
/// that no occurrence is lost. A new key takes a free slot, or else the first
/// slot holding a minimum count, whose entry is given up.
pub open spec fn add_result(
    old: Seq<Entry<usize>>,
    key: usize,
    new: Seq<Entry<usize>>,
    r: Option<Entry<usize>>,
) -> bool {
    if has_key(old, key) {
        let i = key_slot(old, key);
        if old[i].count < usize::MAX {
            new == old.update(i, Entry { item: key, count: (old[i].count + 1) as usize })
                && r == None::<Entry<usize>>
        } else {
            new == old.update(i, fresh(key)) && r == Some(old[i])
        }
    } else if old.len() < BUCKETS_ASSOCIATIVITY {
        new == old.push(fresh(key)) && r == None::<Entry<usize>>
    } else {
        exists|m: int| first_min(old, m) && new == old.update(m, fresh(key)) && r == Some(old[m])
    }
}

/// A fixed array of slots, of which the first `length` are occupied.
pub struct Bucket<T> {
    length: usize,
    entries: Vec<Entry<T>>,
}

impl View for Bucket<usize> {
    type V = Seq<Entry<usize>>;

    /// The occupied slots, in slot order.
    closed spec fn view(&self) -> Seq<Entry<usize>> {
        self.entries@.subrange(0, self.length as int)
    }
}

impl Bucket<usize> {
    /// The slot array has its fixed size and the occupied prefix fits in it.
    pub closed spec fn layout_ok(&self) -> bool {
        &&& self.entries@.len() == BUCKETS_ASSOCIATIVITY
        &&& self.length <= BUCKETS_ASSOCIATIVITY
    }

    /// At most `BUCKETS_ASSOCIATIVITY` occupied slots, with pairwise distinct
    /// keys and positive counts.
    pub open spec fn wf(&self) -> bool {
        &&& self.layout_ok()
        &&& self@.len() <= BUCKETS_ASSOCIATIVITY
        &&& distinct_keys(self@)
        &&& forall|i: int| 0 <= i < self@.len() ==> self@[i].count >= 1
    }

    /// An empty bucket, its slots filled with placeholder entries.
    pub fn new() -> (b: Self)
        ensures
            b.wf(),
            b@ == Seq::<Entry<usize>>::empty(),
    {
        let mut entries: Vec<Entry<usize>> = Vec::new();
        let mut i: usize = 0;
        while i < BUCKETS_ASSOCIATIVITY
            invariant
                i <= BUCKETS_ASSOCIATIVITY,
                entries@.len() == i,
            decreases BUCKETS_ASSOCIATIVITY - i,
        {
            entries.push(Entry { item: 0, count: 0 });
            i += 1;
        }
        let b = Bucket { length: 0, entries };
        assert(b@ =~= Seq::<Entry<usize>>::empty());
        b
    }

    /// The number of occupied slots.
    pub fn len(&self) -> (r: usize)
        requires
            self.wf(),
        ensures
            r == self@.len(),
    {
        self.length
    }

    /// Counts one occurrence of `key`; returns the entry that had to leave the
    /// bucket to make room, if any (see `add_result`).
    pub fn add(&mut self, key: usize) -> (r: Option<Entry<usize>>)
        requires
            old(self).wf(),
        ensures
            final(self).wf(),
            add_result(old(self)@, key, final(self)@, r),
    {
        let ghost old_view = self@;
        let mut i: usize = 0;
        while i < self.length
            invariant
                self.wf(),
                self@ == old_view,
                old(self)@ == old_view,
                i <= self.length,
                forall|j: int| 0 <= j < i ==> self@[j].item != key,
            decreases self.length - i,
        {
            if self.entries[i].item == key {
                let c = self.entries[i].count;
                assert(old_view[i as int] == self.entries@[i as int]);
                assert(old_view[i as int].item == key);
                assert(has_key(old_view, key));
                assert(key_slot(old_view, key) == i);
                if c < usize::MAX {
                    self.entries.set(i, Entry { item: key, count: c + 1 });
                    assert(self@ =~= old_view.update(i as int, Entry { item: key, count: (c + 1) as usize }));
                    assert(add_result(old_view, key, self@, None));
                    return None;
                } else {
                    self.entries.set(i, Entry { item: key, count: 1 });
                    assert(self@ =~= old_view.update(i as int, fresh(key)));
                    return Some(Entry { item: key, count: c });
                }
            }
            i += 1;
        }
        if self.length < BUCKETS_ASSOCIATIVITY {
            self.entries.set(self.length, Entry { item: key, count: 1 });
            self.length += 1;
            assert(self@ =~= old_view.push(fresh(key)));
            None
        } else {
            let mut min_index: usize = 0;
            let mut min_count: usize = self.entries[0].count;
            let mut index: usize = 0;
            while index < self.length
                invariant
                    self.wf(),
                    self@ == old_view,
                    old(self)@ == old_view,
                    self.length == BUCKETS_ASSOCIATIVITY,
                    index <= self.length,
                    min_index < self.length,
                    min_index <= index || min_index == 0,
                    min_count == self@[min_index as int].count,
                    forall|j: int| 0 <= j < min_index ==> self@[j].count > min_count,
                    forall|j: int| 0 <= j < index ==> min_count <= self@[j].count,
                decreases self.length - index,
            {
                let count = self.entries[index].count;
                if count < min_count {
                    min_index = index;
                    min_count = count;
                }
                index += 1;
            }
            let evicted = self.entries[min_index];
            self.entries.set(min_index, Entry { item: key, count: 1 });
            assert(self@ =~= old_view.update(min_index as int, fresh(key)));
            assert(first_min(old_view, min_index as int));
            Some(evicted)
        }
    }

    /// A cursor over the occupied slots, in slot order.
    pub fn iter(&self) -> (it: BucketIterator<'_, usize>)
        ensures
            it.bucket() == self,
            it.index() == 0,
    {
        BucketIterator { related_bucket: self, index: 0 }
    }
}

impl Default for Bucket<usize> {
    /// An empty bucket.
    fn default() -> (b: Self)
        ensures
            b.wf(),
            b@ == Seq::<Entry<usize>>::empty(),
    {
        Self::new()
    }
}

/// A cursor over the occupied slots of one bucket; it never changes the bucket.
pub struct BucketIterator<'a, T> {
    related_bucket: &'a Bucket<T>,
    index: usize,
}

impl<'a> BucketIterator<'a, usize> {
    pub closed spec fn bucket(&self) -> &'a Bucket<usize> {
        self.related_bucket
    }

    pub closed spec fn index(&self) -> nat {
        self.index as nat
    }

    /// The entry at the cursor, which then moves on; `None` past the
    /// occupied slots.
    pub fn next(&mut self) -> (r: Option<&'a Entry<usize>>)
        requires
            old(self).bucket().wf(),
            old(self).index() <= old(self).bucket()@.len(),
        ensures
            final(self).bucket() == old(self).bucket(),
            old(self).index() < old(self).bucket()@.len() ==> r == Some(
                &old(self).bucket()@[old(self).index() as int],
            ) && final(self).index() == old(self).index() + 1,
            old(self).index() >= old(self).bucket()@.len() ==> r == None::<&Entry<usize>>
                && final(self).index() == old(self).index(),
    {
        let b: &'a Bucket<usize> = self.related_bucket;
        if self.index < b.length {
            self.index += 1;
            Some(&b.entries[self.index - 1])
        } else {
            None
        }
    }
}

} // verus!

verus! {

/// Adding a key to a bucket loses no occurrence: for every key `k`, the counts
/// of `k` in the bucket plus the count of `k` in the entry given up equal the
/// counts of `k` before, plus one if `k` is the key added.
pub proof fn lemma_add_keeps_counts(
    old: Seq<Entry<usize>>,
    key: usize,
    new: Seq<Entry<usize>>,
    r: Option<Entry<usize>>,
    k: usize,
)
    requires
        distinct_keys(old),
        add_result(old, key, new, r),
    ensures
        count_of(new, k) + count_opt(r, k) == count_of(old, k) + (if k == key { 1nat } else { 0nat }),
{
    if has_key(old, key) {
        let i = key_slot(old, key);
        if old[i].count < usize::MAX {
            let e = Entry { item: key, count: (old[i].count + 1) as usize };
            assert(r == None::<Entry<usize>>);
            assert(new == old.update(i, e));
            lemma_count_of_update(old, i, e, k);
        } else {
            assert(new == old.update(i, fresh(key)) && r == Some(old[i]));
            lemma_count_of_update(old, i, fresh(key), k);
        }
    } else if old.len() < BUCKETS_ASSOCIATIVITY {
        assert(new == old.push(fresh(key)));
        assert(new.drop_last() =~= old);
    } else {
        let m = choose|m: int|
            first_min(old, m) && new == old.update(m, fresh(key)) && r == Some(old[m]);
        lemma_count_of_update(old, m, fresh(key), k);
    }
}

/// An entry that a bucket of positive counts gives up has a positive count,
/// and the bucket keeps positive counts.
pub proof fn lemma_evicted_positive(
    old: Seq<Entry<usize>>,
    key: usize,
    new: Seq<Entry<usize>>,
    r: Option<Entry<usize>>,
)
    requires
        all_positive(old),
        add_result(old, key, new, r),
    ensures
        all_positive(new),
        r matches Some(e) ==> e.count >= 1,
{
    if has_key(old, key) {
        let i = key_slot(old, key);
        if old[i].count < usize::MAX {
            assert(new == old.update(i, Entry { item: key, count: (old[i].count + 1) as usize }));
        } else {
            assert(new == old.update(i, fresh(key)));
        }
    } else if old.len() < BUCKETS_ASSOCIATIVITY {
        assert(new == old.push(fresh(key)));
    } else {
        let m = choose|m: int|
            first_min(old, m) && new == old.update(m, fresh(key)) && r == Some(old[m]);
    }
}

/// Fresh entries for the keys of `keys`, in order.
pub open spec fn fresh_all(keys: Seq<usize>) -> Seq<Entry<usize>> {
    keys.map_values(|k: usize| fresh(k))
}

/// Filling a bucket: while a bucket holds one fresh entry for each of fewer
/// than `BUCKETS_ASSOCIATIVITY` distinct keys, adding another distinct key
/// gives nothing up and appends a fresh entry for it. So the first
/// `BUCKETS_ASSOCIATIVITY` distinct keys added to an empty bucket are all
/// admitted, in the order they came.
pub proof fn lemma_admission_run(
    keys: Seq<usize>,
    key: usize,
    new: Seq<Entry<usize>>,
    r: Option<Entry<usize>>,
)
    requires
        keys.no_duplicates(),
        keys.len() < BUCKETS_ASSOCIATIVITY,
        !keys.contains(key),
        add_result(fresh_all(keys), key, new, r),
    ensures
        r is None,
        new == fresh_all(keys.push(key)),
        (keys.push(key)).no_duplicates(),
{
    let old = fresh_all(keys);
    if has_key(old, key) {
        let i = choose|i: int| 0 <= i < old.len() && old[i].item == key;
        assert(keys[i] == key);
    }
    assert(new == old.push(fresh(key)));
    assert(new =~= fresh_all(keys.push(key)));
    let ks = keys.push(key);
    assert forall|i: int, j: int| 0 <= i < ks.len() && 0 <= j < ks.len() && i != j implies ks[i]
        != ks[j] by {
        if i == keys.len() {
            assert(ks[j] == keys[j]);
        } else if j == keys.len() {
            assert(ks[i] == keys[i]);
        }
    }
}

/// Adding a key to a bucket whose keys are distinct leaves them distinct.
pub proof fn lemma_add_keeps_keys_distinct(
    old: Seq<Entry<usize>>,
    key: usize,
    new: Seq<Entry<usize>>,
    r: Option<Entry<usize>>,
)
    requires
        distinct_keys(old),
        add_result(old, key, new, r),
    ensures
        distinct_keys(new),
        old.len() <= BUCKETS_ASSOCIATIVITY ==> new.len() <= BUCKETS_ASSOCIATIVITY,
{
    if has_key(old, key) {
        let i = key_slot(old, key);
        if old[i].count < usize::MAX {
            assert(new == old.update(i, Entry { item: key, count: (old[i].count + 1) as usize }));
        } else {
            assert(new == old.update(i, fresh(key)));
        }
    } else if old.len() < BUCKETS_ASSOCIATIVITY {
        assert(new == old.push(fresh(key)));
    } else {
        let m = choose|m: int|
            first_min(old, m) && new == old.update(m, fresh(key)) && r == Some(old[m]);
    }
}

/// A bucket with a free slot admits a new key without giving anything up; a
/// full bucket gives up exactly one resident entry, one holding a minimum
/// count, and keeps the other entries where they were.
pub proof fn lemma_admission(
    old: Seq<Entry<usize>>,
    key: usize,
    new: Seq<Entry<usize>>,
    r: Option<Entry<usize>>,
)
    requires
        distinct_keys(old),
        old.len() <= BUCKETS_ASSOCIATIVITY,
        !has_key(old, key),
        add_result(old, key, new, r),
    ensures
        old.len() < BUCKETS_ASSOCIATIVITY ==> r is None && new == old.push(fresh(key)),
        old.len() == BUCKETS_ASSOCIATIVITY ==> exists|m: int|
            0 <= m < old.len() && r == Some(old[m]) && new == old.update(m, fresh(key)) && (
            forall|j: int| 0 <= j < old.len() ==> old[m].count <= #[trigger] old[j].count),
{
    if old.len() == BUCKETS_ASSOCIATIVITY {
        let m = choose|m: int|
            first_min(old, m) && new == old.update(m, fresh(key)) && r == Some(old[m]);
        assert(0 <= m < old.len() && r == Some(old[m]) && new == old.update(m, fresh(key)));
    }
}

} // verus!
