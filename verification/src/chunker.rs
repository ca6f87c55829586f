//! Cutting a byte stream into chunks of a fixed size, whatever the sizes of
//! the reads that deliver it.

use vstd::prelude::*;
use crate::cid::copy_range;

verus! {

/// The full chunks of `size` bytes at the front of `s`, in order.
pub open spec fn full_chunks(s: Seq<u8>, size: nat) -> Seq<Seq<u8>>
    recommends
        size > 0,
    decreases s.len(),
{
    if size == 0 || s.len() < size {
        Seq::empty()
    } else {
        seq![s.take(size as int)] + full_chunks(s.skip(size as int), size)
    }
}

/// What is left of `s` after its full chunks of `size` bytes.
pub open spec fn leftover(s: Seq<u8>, size: nat) -> Seq<u8>
    decreases s.len(),
{
    if size == 0 || s.len() < size {
        s
    } else {
        leftover(s.skip(size as int), size)
    }
}

/// The chunks of a whole stream `s`: its full chunks, then what is left if
/// anything is.
pub open spec fn chunks_of(s: Seq<u8>, size: nat) -> Seq<Seq<u8>> {
    if leftover(s, size).len() == 0 {
        full_chunks(s, size)
    } else {
        full_chunks(s, size).push(leftover(s, size))
    }
}

/// The chunks, joined back together.
pub open spec fn concat(cs: Seq<Seq<u8>>) -> Seq<u8>
    decreases cs.len(),
{
    if cs.len() == 0 {
        Seq::empty()
    } else {
        concat(cs.drop_last()) + cs.last()
    }
}

/// Gathers the bytes of a stream as they are read and hands them out in
/// chunks of `chunk_size` bytes; the last chunk may be shorter.
pub struct Chunker {
    chunk_size: usize,
    buf: Vec<u8>,
}

impl Chunker {
    /// The size of the chunks.
    pub closed spec fn size(&self) -> nat {
        self.chunk_size as nat
    }

    /// The bytes read but not yet handed out.
    pub closed spec fn pending(&self) -> Seq<u8> {
        self.buf@
    }

    /// A chunker of `chunk_size`-byte chunks that has read nothing.
    pub fn new(chunk_size: usize) -> (c: Chunker)
        requires
            chunk_size > 0,
        ensures
            c.size() == chunk_size,
            c.pending() == Seq::<u8>::empty(),
    {
        Chunker { chunk_size, buf: Vec::new() }
    }

    /// Takes the bytes of one read; returns the chunks that are now full.
    pub fn feed(&mut self, data: &[u8]) -> (out: Vec<Vec<u8>>)
        requires
            old(self).size() > 0,
        ensures
            final(self).size() == old(self).size(),
            out@.map_values(|c: Vec<u8>| c@) == full_chunks(old(self).pending() + data@, old(self).size()),
            final(self).pending() == leftover(old(self).pending() + data@, old(self).size()),
    {
        let ghost all = self.buf@ + data@;
        crate::cid::append_bytes(&mut self.buf, data);
        let size = self.chunk_size;
        let mut out: Vec<Vec<u8>> = Vec::new();
        let mut pos: usize = 0;
        proof {
            assert(all.skip(0) =~= all);
            assert(out@.map_values(|c: Vec<u8>| c@) =~= Seq::<Seq<u8>>::empty());
        }
        while self.buf.len() - pos >= size
            invariant
                size > 0,
                size == self.chunk_size,
                self.buf@ == all,
                pos <= self.buf.len(),
                full_chunks(all, size as nat) == out@.map_values(|c: Vec<u8>| c@) + full_chunks(
                    all.skip(pos as int),
                    size as nat,
                ),
                leftover(all, size as nat) == leftover(all.skip(pos as int), size as nat),
            decreases self.buf.len() - pos,
        {
            let c = copy_range(self.buf.as_slice(), pos, size);
            let ghost rest = all.skip(pos as int);
            let ghost prev = out@.map_values(|c: Vec<u8>| c@);
            proof {
                assert(rest.take(size as int) =~= c@);
                assert(rest.skip(size as int) =~= all.skip(pos + size));
            }
            out.push(c);
            proof {
                assert(out@.map_values(|c: Vec<u8>| c@) =~= prev.push(c@));
                assert(prev + full_chunks(rest, size as nat) =~= prev.push(c@) + full_chunks(all.skip(pos + size), size as nat));
            }
            pos = pos + size;
        }
        let rest = copy_range(self.buf.as_slice(), pos, self.buf.len() - pos);
        proof {
            assert(all.skip(pos as int) =~= rest@);
            assert(full_chunks(rest@, size as nat) =~= Seq::<Seq<u8>>::empty());
            assert(out@.map_values(|c: Vec<u8>| c@) + Seq::<Seq<u8>>::empty() =~= out@.map_values(|c: Vec<u8>| c@));
        }
        self.buf = rest;
        out
    }

    /// Ends the stream: the bytes left over form the last chunk, if any.
    pub fn finish(self) -> (last: Option<Vec<u8>>)
        ensures
            self.pending().len() == 0 ==> last is None,
            self.pending().len() > 0 ==> (last matches Some(c) && c@ == self.pending()),
    {
        if self.buf.len() == 0 {
            None
        } else {
            Some(self.buf)
        }
    }
}

/// Cuts a whole stream into chunks of `chunk_size` bytes, the last one
/// possibly shorter; nothing yields no chunk.
pub fn byte_stream_chunker(data: &[u8], chunk_size: usize) -> (out: Vec<Vec<u8>>)
    requires
        chunk_size > 0,
    ensures
        out@.map_values(|c: Vec<u8>| c@) == chunks_of(data@, chunk_size as nat),
{
    let mut chunker = Chunker::new(chunk_size);
    let mut out = chunker.feed(data);
    proof {
        assert(Seq::<u8>::empty() + data@ =~= data@);
    }
    let ghost full = out@.map_values(|c: Vec<u8>| c@);
    match chunker.finish() {
        None => {},
        Some(last) => {
            out.push(last);
            proof {
                assert(out@.map_values(|c: Vec<u8>| c@) =~= full.push(leftover(data@, chunk_size as nat)));
            }
        },
    }
    out
}

/// Every chunk but the last has exactly `size` bytes, the last at most that
/// many, none is empty, and together they are the stream.
pub proof fn law_chunks_cover(s: Seq<u8>, size: nat)
    requires
        size > 0,
    ensures
        concat(chunks_of(s, size)) == s,
        forall|i: int| 0 <= i < chunks_of(s, size).len() - 1 ==> (#[trigger] chunks_of(s, size)[i]).len() == size,
        forall|i: int| 0 <= i < chunks_of(s, size).len() ==> 0 < (#[trigger] chunks_of(s, size)[i]).len() <= size,
    decreases s.len(),
{
    lemma_full_chunks(s, size);
    if leftover(s, size).len() == 0 {
        assert(full_chunks(s, size) == chunks_of(s, size));
        assert(concat(full_chunks(s, size)) + Seq::<u8>::empty() =~= concat(full_chunks(s, size)));
    } else {
        let cs = chunks_of(s, size);
        assert(cs.drop_last() =~= full_chunks(s, size));
    }
}

/// The full chunks join into the stream minus its leftover, which is
/// shorter than a chunk; each full chunk has `size` bytes.
proof fn lemma_full_chunks(s: Seq<u8>, size: nat)
    requires
        size > 0,
    ensures
        concat(full_chunks(s, size)) + leftover(s, size) == s,
        leftover(s, size).len() < size,
        forall|i: int| 0 <= i < full_chunks(s, size).len() ==> (#[trigger] full_chunks(s, size)[i]).len() == size,
    decreases s.len(),
{
    if s.len() >= size {
        let rest = s.skip(size as int);
        lemma_full_chunks(rest, size);
        let head = s.take(size as int);
        let fc = full_chunks(rest, size);
        lemma_concat_prepend(head, fc);
        assert(head + rest =~= s);
        assert(forall|i: int| 0 <= i < fc.len() ==> (seq![head] + fc)[i + 1] == fc[i]);
    } else {
        assert(full_chunks(s, size) =~= Seq::<Seq<u8>>::empty());
        assert(Seq::<u8>::empty() + s =~= s);
    }
}

proof fn lemma_concat_prepend(h: Seq<u8>, cs: Seq<Seq<u8>>)
    ensures
        concat(seq![h] + cs) == h + concat(cs),
    decreases cs.len(),
{
    if cs.len() == 0 {
        assert(seq![h] + cs =~= seq![h]);
        assert(seq![h].drop_last() =~= Seq::<Seq<u8>>::empty());
        assert(concat(seq![h].drop_last()) == Seq::<u8>::empty());
        assert(concat(seq![h]) == concat(seq![h].drop_last()) + h);
        assert(Seq::<u8>::empty() + h =~= h);
        assert(concat(cs) == Seq::<u8>::empty());
        assert(h + Seq::<u8>::empty() =~= h);
    } else {
        lemma_concat_prepend(h, cs.drop_last());
        assert((seq![h] + cs).drop_last() =~= seq![h] + cs.drop_last());
        assert(h + concat(cs.drop_last()) + cs.last() =~= h + (concat(cs.drop_last()) + cs.last()));
    }
}

} // verus!
