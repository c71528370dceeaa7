//! Walking a whole memory-map blob, one record at a time.
use vstd::bytes::spec_u32_from_le_bytes;
use vstd::prelude::*;
use vstd::slice::slice_subrange;

use crate::entry::{
    encode_entry, lemma_encode_len, lemma_round_trip, parse_entry, read_one, wire_len, MmapError,
    RawEntry, MIN_PAYLOAD,
};

verus! {

/// The items a walk over `b` yields, in order: each record that parses, and
/// after the first failure that failure alone, after which nothing follows.
pub open spec fn walk(b: Seq<u8>) -> Seq<Result<RawEntry, MmapError>>
    decreases b.len(),
{
    if b.len() == 0 {
        Seq::empty()
    } else {
        match parse_entry(b) {
            Ok((e, _n)) => seq![Ok(e)] + walk(b.subrange(wire_len(e.size), b.len() as int)),
            Err(err) => seq![Err(err)],
        }
    }
}

/// The blob holding the encodings of `es`, one after the other.
pub open spec fn encode_all(es: Seq<RawEntry>) -> Seq<u8>
    decreases es.len(),
{
    if es.len() == 0 {
        Seq::empty()
    } else {
        encode_entry(es[0]) + encode_all(es.drop_first())
    }
}

/// A blob whose size field is below the minimum yields exactly one error,
/// and nothing after it, however many bytes follow.
pub proof fn lemma_small_size_ends_walk(b: Seq<u8>)
    requires
        b.len() >= 4,
        spec_u32_from_le_bytes(b.subrange(0, 4)) < MIN_PAYLOAD,
    ensures
        walk(b) == seq![
            Err::<RawEntry, MmapError>(
                MmapError::SizeTooSmall { size: spec_u32_from_le_bytes(b.subrange(0, 4)) },
            ),
        ],
{
}

/// Order is kept: walking the encodings of records of valid size yields
/// those records, in the order in which they were written.
pub proof fn lemma_walk_encoded(es: Seq<RawEntry>)
    requires
        forall|i: int| 0 <= i < es.len() ==> #[trigger] es[i].size >= MIN_PAYLOAD,
    ensures
        walk(encode_all(es)) == es.map_values(|e: RawEntry| Ok::<RawEntry, MmapError>(e)),
    decreases es.len(),
{
    let f = |e: RawEntry| Ok::<RawEntry, MmapError>(e);
    if es.len() == 0 {
        assert(es.map_values(f) =~= Seq::<Result<RawEntry, MmapError>>::empty());
    } else {
        let e = es[0];
        let tail = es.drop_first();
        assert forall|i: int| 0 <= i < tail.len() implies #[trigger] tail[i].size
            >= MIN_PAYLOAD by {
            assert(tail[i] == es[i + 1]);
        }
        lemma_walk_encoded(tail);
        lemma_round_trip(e, encode_all(tail));
        lemma_encode_len(e);
        let b = encode_all(es);
        assert(b.subrange(wire_len(e.size), b.len() as int) =~= encode_all(tail));
        assert(es.map_values(f) =~= seq![f(e)] + tail.map_values(f));
    }
}

/// The walk is finite: it yields at most one item per four bytes, plus one.
pub proof fn lemma_walk_len(b: Seq<u8>)
    ensures
        walk(b).len() <= b.len() / 4 + 1,
    decreases b.len(),
{
    if b.len() > 0 {
        if let Ok((e, _n)) = parse_entry(b) {
            lemma_walk_len(b.subrange(wire_len(e.size), b.len() as int));
        }
    }
}

/// A pull-based walk over a blob of records.
pub struct Mb1MmapIter<'a> {
    buf: &'a [u8],
    offset: usize,
}

impl<'a> Mb1MmapIter<'a> {
    #[verifier::type_invariant]
    spec fn offset_in_bounds(self) -> bool {
        self.offset <= self.buf@.len()
    }

    /// The items that the following calls of `next` will yield.
    pub closed spec fn pending(self) -> Seq<Result<RawEntry, MmapError>> {
        walk(self.buf@.subrange(self.offset as int, self.buf@.len() as int))
    }

    /// Starts a walk at the first byte of `buf`.
    pub fn new(buf: &'a [u8]) -> (r: Self)
        ensures
            r.pending() == walk(buf@),
    {
        let r = Mb1MmapIter { buf, offset: 0 };
        assert(buf@.subrange(0, buf@.len() as int) =~= buf@);
        r
    }

    /// Yields the next item, or `None` once the walk has ended. Every call
    /// that yields an item strictly shortens what is pending.
    pub fn next(&mut self) -> (r: Option<Result<RawEntry, MmapError>>)
        ensures
            old(self).pending().len() == 0 ==> {
                &&& r.is_none()
                &&& final(self).pending() == old(self).pending()
            },
            old(self).pending().len() > 0 ==> {
                &&& r == Some(old(self).pending()[0])
                &&& final(self).pending() == old(self).pending().drop_first()
            },
    {
        proof {
            use_type_invariant(&*self);
        }
        let len = self.buf.len();
        if self.offset == len {
            return None;
        }
        let rest = slice_subrange(self.buf, self.offset, len);
        match read_one(rest) {
            Ok((e, consumed)) => {
                self.offset = self.offset + consumed;
                assert(self.buf@.subrange(self.offset as int, len as int) =~= rest@.subrange(
                    wire_len(e.size),
                    rest@.len() as int,
                ));
                Some(Ok(e))
            },
            Err(err) => {
                self.offset = len;
                assert(self.buf@.subrange(len as int, len as int) =~= Seq::<u8>::empty());
                Some(Err(err))
            },
        }
    }
}

} // verus!
