//! Counted entries and the arithmetic over sequences of them.
use vstd::prelude::*;

verus! {

/// One key together with the number of occurrences attributed to this
/// entry since it was created.
#[derive(Clone, Copy, Debug)]
pub struct Entry<T> {
    pub item: T,
    pub count: usize,
}

/// The contribution of one entry to the total of key `k`.
pub open spec fn count_in(e: Entry<usize>, k: usize) -> nat {
    if e.item == k {
        e.count as nat
    } else {
        0
    }
}

/// Every entry of `s` has a positive count.
pub open spec fn all_positive(s: Seq<Entry<usize>>) -> bool {
    forall|i: int| 0 <= i < s.len() ==> #[trigger] s[i].count >= 1
}

/// The sum of the counts of all entries of `s` whose key is `k`.
pub open spec fn count_of(s: Seq<Entry<usize>>, k: usize) -> nat
    decreases s.len(),
{
    if s.len() == 0 {
        0
    } else {
        count_of(s.drop_last(), k) + count_in(s.last(), k)
    }
}

/// The contribution of an optional entry to the total of key `k`.
pub open spec fn count_opt(e: Option<Entry<usize>>, k: usize) -> nat {
    match e {
        Some(e) => count_in(e, k),
        None => 0,
    }
}

/// The entries of all the groups of `ss`, group after group.
pub open spec fn concat(ss: Seq<Seq<Entry<usize>>>) -> Seq<Entry<usize>>
    decreases ss.len(),
{
    if ss.len() == 0 {
        Seq::empty()
    } else {
        concat(ss.drop_last()) + ss.last()
    }
}

pub proof fn lemma_count_of_append(a: Seq<Entry<usize>>, b: Seq<Entry<usize>>, k: usize)
    ensures
        count_of(a + b, k) == count_of(a, k) + count_of(b, k),
    decreases b.len(),
{
    if b.len() == 0 {
        assert(a + b =~= a);
    } else {
        lemma_count_of_append(a, b.drop_last(), k);
        assert((a + b).drop_last() =~= a + b.drop_last());
    }
}

pub proof fn lemma_count_of_update(s: Seq<Entry<usize>>, i: int, e: Entry<usize>, k: usize)
    requires
        0 <= i < s.len(),
    ensures
        count_of(s.update(i, e), k) + count_in(s[i], k) == count_of(s, k) + count_in(e, k),
    decreases s.len(),
{
    if i == s.len() - 1 {
        assert(s.update(i, e).drop_last() =~= s.drop_last());
    } else {
        lemma_count_of_update(s.drop_last(), i, e, k);
        assert(s.update(i, e).drop_last() =~= s.drop_last().update(i, e));
    }
}

pub proof fn lemma_concat_update(ss: Seq<Seq<Entry<usize>>>, i: int, s: Seq<Entry<usize>>, k: usize)
    requires
        0 <= i < ss.len(),
    ensures
        count_of(concat(ss.update(i, s)), k) + count_of(ss[i], k) == count_of(concat(ss), k)
            + count_of(s, k),
    decreases ss.len(),
{
    let ss2 = ss.update(i, s);
    if i == ss.len() - 1 {
        assert(ss2.drop_last() =~= ss.drop_last());
    } else {
        lemma_concat_update(ss.drop_last(), i, s, k);
        assert(ss2.drop_last() =~= ss.drop_last().update(i, s));
    }
    lemma_count_of_append(concat(ss2.drop_last()), ss2.last(), k);
    lemma_count_of_append(concat(ss.drop_last()), ss.last(), k);
}

} // verus!
