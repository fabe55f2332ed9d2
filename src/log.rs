//! The overflow log: a staging buffer of evicted entries whose full blocks
//! go to backing storage as fixed-width records.
//!
//! A record is sixteen bytes: the key, then the count, each as a
//! little-endian `u64`. Writing a block and reading the storage back are left
//! to the caller; this type decides when a block is due, encodes it, and
//! decodes what the storage holds.
use vstd::prelude::*;
use vstd::bytes::{
    spec_u64_to_le_bytes, spec_u64_from_le_bytes, u64_to_le_bytes, u64_from_le_bytes,
    lemma_auto_spec_u64_to_from_le_bytes,
};
use vstd::slice::slice_subrange;
use crate::entry::Entry;

verus! {

/// Capacity of the staging buffer, in entries.
pub const BUFFER_LENGTH: usize = 1024;

/// Size in bytes of one record.
pub const RECORD_SIZE: usize = 16;

/// The record of one entry.
pub open spec fn encode_entry(e: Entry<usize>) -> Seq<u8> {
    spec_u64_to_le_bytes(e.item as u64) + spec_u64_to_le_bytes(e.count as u64)
}

/// The records of `s`, one after the other.
pub open spec fn encode(s: Seq<Entry<usize>>) -> Seq<u8>
    decreases s.len(),
{
    if s.len() == 0 {
        Seq::empty()
    } else {
        encode(s.drop_last()) + encode_entry(s.last())
    }
}

/// The entry that a sixteen-byte record holds.
pub open spec fn decode_entry(b: Seq<u8>) -> Entry<usize> {
    Entry {
        item: spec_u64_from_le_bytes(b.subrange(0, 8)) as usize,
        count: spec_u64_from_le_bytes(b.subrange(8, 16)) as usize,
    }
}

/// The entries that the whole records of `b` hold, in order.
pub open spec fn decode(b: Seq<u8>) -> Seq<Entry<usize>>
    decreases b.len(),
{
    if b.len() < RECORD_SIZE {
        Seq::empty()
    } else {
        let n = b.len() - RECORD_SIZE;
        decode(b.subrange(0, n)) + seq![decode_entry(b.subrange(n, b.len() as int))]
    }
}

/// Decoding the records of `s` gives `s` back.
pub proof fn lemma_decode_encode(s: Seq<Entry<usize>>)
    ensures
        encode(s).len() == RECORD_SIZE * s.len(),
        decode(encode(s)) == s,
    decreases s.len(),
{
    if s.len() > 0 {
        lemma_decode_encode(s.drop_last());
        lemma_auto_spec_u64_to_from_le_bytes();
        let e = s.last();
        let b = encode(s);
        let n = b.len() - RECORD_SIZE;
        assert(b.subrange(0, n) =~= encode(s.drop_last()));
        let r = b.subrange(n, b.len() as int);
        assert(r =~= encode_entry(e));
        assert(r.subrange(0, 8) =~= spec_u64_to_le_bytes(e.item as u64));
        assert(r.subrange(8, 16) =~= spec_u64_to_le_bytes(e.count as u64));
        assert(decode_entry(r) == e);
        assert(decode(b) =~= s);
    } else {
        assert(decode(encode(s)) =~= s);
    }
}

/// Records of `a` then records of `b` are the records of `a + b`.
pub proof fn lemma_encode_append(a: Seq<Entry<usize>>, b: Seq<Entry<usize>>)
    ensures
        encode(a + b) == encode(a) + encode(b),
    decreases b.len(),
{
    if b.len() == 0 {
        assert(a + b =~= a);
        assert(encode(a) + encode(b) =~= encode(a));
    } else {
        lemma_encode_append(a, b.drop_last());
        assert((a + b).drop_last() =~= a + b.drop_last());
        assert(encode(a + b) =~= encode(a) + encode(b));
    }
}

/// An append-only log of entries: those already written out as records, then
/// those still staged in a buffer of `BUFFER_LENGTH` slots.
pub struct TempFdArray<T> {
    buffer: Vec<T>,
    buffer_index: usize,
    flushed: Ghost<Seq<T>>,
}

impl TempFdArray<Entry<usize>> {
    /// The entries handed to storage, in push order.
    pub closed spec fn flushed(&self) -> Seq<Entry<usize>> {
        self.flushed@
    }

    /// The entries still staged, in push order.
    pub closed spec fn staged(&self) -> Seq<Entry<usize>> {
        self.buffer@.subrange(0, self.buffer_index as int)
    }

    /// The whole log in push order: flushed entries, then staged ones.
    pub open spec fn logged(&self) -> Seq<Entry<usize>> {
        self.flushed() + self.staged()
    }

    /// The buffer has its fixed size and the cursor lies within it.
    pub closed spec fn wf(&self) -> bool {
        &&& self.buffer@.len() == BUFFER_LENGTH
        &&& self.buffer_index <= BUFFER_LENGTH
    }

    /// A well-formed log stages at most `BUFFER_LENGTH` entries.
    pub proof fn lemma_staged_len(&self)
        requires
            self.wf(),
        ensures
            self.staged().len() <= BUFFER_LENGTH,
    {
    }

    /// An empty log.
    pub fn new() -> (a: Self)
        ensures
            a.wf(),
            a.flushed() == Seq::<Entry<usize>>::empty(),
            a.staged() == Seq::<Entry<usize>>::empty(),
    {
        let mut buffer: Vec<Entry<usize>> = Vec::new();
        let mut i: usize = 0;
        while i < BUFFER_LENGTH
            invariant
                i <= BUFFER_LENGTH,
                buffer@.len() == i,
            decreases BUFFER_LENGTH - i,
        {
            buffer.push(Entry { item: 0, count: 0 });
            i += 1;
        }
        let a = TempFdArray { buffer, buffer_index: 0, flushed: Ghost(Seq::empty()) };
        assert(a.staged() =~= Seq::<Entry<usize>>::empty());
        a
    }

    /// Whether the staging buffer is full, so that its block must be written
    /// out before anything more is pushed.
    pub fn is_full(&self) -> (r: bool)
        requires
            self.wf(),
        ensures
            r == (self.staged().len() == BUFFER_LENGTH),
    {
        self.buffer_index >= BUFFER_LENGTH
    }

    /// Stages `entry` at the end of the log; refuses, changing nothing, when
    /// the staging buffer is full.
    pub fn push(&mut self, entry: Entry<usize>) -> (r: bool)
        requires
            old(self).wf(),
        ensures
            final(self).wf(),
            r == (old(self).staged().len() < BUFFER_LENGTH),
            final(self).flushed() == old(self).flushed(),
            r ==> final(self).staged() == old(self).staged().push(entry),
            !r ==> final(self).staged() == old(self).staged(),
            r ==> final(self).logged() == old(self).logged().push(entry),
            !r ==> final(self).logged() == old(self).logged(),
    {
        if self.buffer_index >= BUFFER_LENGTH {
            return false;
        }
        let ghost before = self.staged();
        self.buffer.set(self.buffer_index, entry);
        self.buffer_index += 1;
        assert(self.staged() =~= before.push(entry));
        assert(self.logged() =~= old(self).logged().push(entry));
        true
    }

    /// The records of the staged entries, to be appended to storage.
    pub fn pending_block(&self) -> (r: Vec<u8>)
        requires
            self.wf(),
        ensures
            r@ == encode(self.staged()),
    {
        let mut out: Vec<u8> = Vec::new();
        let mut i: usize = 0;
        while i < self.buffer_index
            invariant
                self.wf(),
                i <= self.buffer_index,
                out@ == encode(self.staged().subrange(0, i as int)),
            decreases self.buffer_index - i,
        {
            let e = self.buffer[i];
            let mut item = u64_to_le_bytes(e.item as u64);
            let mut count = u64_to_le_bytes(e.count as u64);
            out.append(&mut item);
            out.append(&mut count);
            assert(self.staged().subrange(0, i + 1).drop_last() =~= self.staged().subrange(0, i as int));
            assert(out@ =~= encode(self.staged().subrange(0, i + 1)));
            i += 1;
        }
        assert(self.staged().subrange(0, i as int) =~= self.staged());
        out
    }

    /// Records that the block of `pending_block` now stands in storage: the
    /// staged entries join the flushed ones and the buffer is empty again.
    pub fn mark_flushed(&mut self)
        requires
            old(self).wf(),
        ensures
            final(self).wf(),
            final(self).flushed() == old(self).flushed() + old(self).staged(),
            final(self).staged() == Seq::<Entry<usize>>::empty(),
            final(self).logged() == old(self).logged(),
    {
        self.flushed = Ghost(self.flushed@ + self.staged());
        self.buffer_index = 0;
        assert(self.staged() =~= Seq::<Entry<usize>>::empty());
        assert(self.logged() =~= old(self).logged());
    }

    /// The whole log, given what storage holds: the entries of its records in
    /// write order, then the staged entries in push order. `None` when the
    /// storage does not hold whole records.
    pub fn iter(&self, file: &Vec<u8>) -> (r: Option<Vec<Entry<usize>>>)
        requires
            self.wf(),
        ensures
            file@.len() % (RECORD_SIZE as nat) != 0 ==> r == None::<Vec<Entry<usize>>>,
            file@.len() % (RECORD_SIZE as nat) == 0 ==> r is Some && r->Some_0@ == decode(file@)
                + self.staged(),
            file@ == encode(self.flushed()) ==> r is Some && r->Some_0@ == self.logged(),
    {
        proof {
            lemma_decode_encode(self.flushed());
        }
        let len = file.len();
        if len % RECORD_SIZE != 0 {
            return None;
        }
        let mut out: Vec<Entry<usize>> = Vec::new();
        let mut pos: usize = 0;
        while pos < len
            invariant
                len == file@.len(),
                len % RECORD_SIZE == 0,
                pos <= len,
                pos % RECORD_SIZE == 0,
                out@ == decode(file@.subrange(0, pos as int)),
            decreases len - pos,
        {
            let item = u64_from_le_bytes(slice_subrange(file.as_slice(), pos, pos + 8));
            let count = u64_from_le_bytes(slice_subrange(file.as_slice(), pos + 8, pos + 16));
            out.push(Entry { item: item as usize, count: count as usize });
            proof {
                let b = file@.subrange(0, pos + 16);
                assert(b.subrange(0, pos as int) =~= file@.subrange(0, pos as int));
                let rec = b.subrange(pos as int, pos + 16);
                assert(rec.subrange(0, 8) =~= file@.subrange(pos as int, pos + 8));
                assert(rec.subrange(8, 16) =~= file@.subrange(pos + 8, pos + 16));
            }
            pos += RECORD_SIZE;
        }
        assert(file@.subrange(0, len as int) =~= file@);
        let mut i: usize = 0;
        let ghost start = out@;
        while i < self.buffer_index
            invariant
                self.wf(),
                i <= self.buffer_index,
                out@ == start + self.staged().subrange(0, i as int),
            decreases self.buffer_index - i,
        {
            out.push(self.buffer[i]);
            assert(self.staged().subrange(0, i + 1) =~= self.staged().subrange(0, i as int).push(
                self.buffer@[i as int],
            ));
            i += 1;
        }
        assert(self.staged().subrange(0, i as int) =~= self.staged());
        Some(out)
    }
}

} // verus!
