//! The wire format of one memory-map record: decoding, encoding, validation.
use vstd::bytes::{
    lemma_auto_spec_u32_to_from_le_bytes, lemma_auto_spec_u64_to_from_le_bytes,
    spec_u32_from_le_bytes, spec_u32_to_le_bytes, spec_u64_from_le_bytes, spec_u64_to_le_bytes,
    u32_from_le_bytes, u32_to_le_bytes, u64_from_le_bytes, u64_to_le_bytes,
};
use vstd::prelude::*;
use vstd::slice::slice_subrange;

verus! {

/// The fewest payload bytes a record may declare: base (8), length (8), type (4).
pub const MIN_PAYLOAD: u32 = 20;

/// One record as the bootloader wrote it. Nothing about it is trusted.
#[derive(Clone, Copy, Debug, PartialEq, Eq)]
pub struct RawEntry {
    /// Payload size in bytes, not counting this field itself.
    pub size: u32,
    pub base_addr: u64,
    pub length: u64,
    /// Memory class code; `1` means usable RAM.
    pub typ: u32,
}

// The record's fields are copied out of the wire bytes by `read_one`, byte
// by byte, into this naturally aligned value: no typed load is ever made
// over the bootloader's buffer, so each accessor is a plain field read.
impl RawEntry {
    pub fn get_size_unaligned(self) -> (r: u32)
        ensures
            r == self.size,
    {
        self.size
    }

    pub fn get_base_addr_unaligned(self) -> (r: u64)
        ensures
            r == self.base_addr,
    {
        self.base_addr
    }

    pub fn get_length_unaligned(self) -> (r: u64)
        ensures
            r == self.length,
    {
        self.length
    }

    pub fn get_type_unaligned(self) -> (r: u32)
        ensures
            r == self.typ,
    {
        self.typ
    }
}

/// A record with the minimal payload size.
pub fn raw(start: u64, len: u64, kind: u32) -> (e: RawEntry)
    ensures
        e == (RawEntry { size: MIN_PAYLOAD, base_addr: start, length: len, typ: kind }),
{
    RawEntry { size: MIN_PAYLOAD, base_addr: start, length: len, typ: kind }
}

/// Why a record could not be read.
#[derive(Clone, Copy, Debug, PartialEq, Eq)]
pub enum MmapError {
    /// Fewer than four bytes remain, so the size field cannot be read.
    TruncatedHeader { have: usize },
    /// The declared payload cannot hold base, length and type.
    SizeTooSmall { size: u32 },
    /// The declared record runs past the end of the buffer. `needed` is
    /// `4 + size`, computed without overflow.
    TruncatedEntry { needed: u64, have: usize },
}

/// Byte value written into the uninterpreted extension bytes of a record.
pub const EXTENSION_FILL: u8 = 0xEE;

/// Total length on the wire of a record that declares payload `size`.
pub open spec fn wire_len(size: u32) -> int {
    4 + size
}

/// What the parser makes of the bytes at the start of `b`: the record and
/// the number of bytes it occupies, or the first check it fails.
pub open spec fn parse_entry(b: Seq<u8>) -> Result<(RawEntry, usize), MmapError> {
    if b.len() < 4 {
        Err(MmapError::TruncatedHeader { have: b.len() as usize })
    } else {
        let size = spec_u32_from_le_bytes(b.subrange(0, 4));
        if size < MIN_PAYLOAD {
            Err(MmapError::SizeTooSmall { size })
        } else if b.len() < wire_len(size) {
            Err(MmapError::TruncatedEntry { needed: wire_len(size) as u64, have: b.len() as usize })
        } else {
            Ok(
                (
                    RawEntry {
                        size,
                        base_addr: spec_u64_from_le_bytes(b.subrange(4, 12)),
                        length: spec_u64_from_le_bytes(b.subrange(12, 20)),
                        typ: spec_u32_from_le_bytes(b.subrange(20, 24)),
                    },
                    wire_len(size) as usize,
                ),
            )
        }
    }
}

/// Number of extension bytes that follow the fixed fields of `size`.
pub open spec fn extension_len(size: u32) -> nat {
    if size > MIN_PAYLOAD {
        (size - MIN_PAYLOAD) as nat
    } else {
        0
    }
}

/// The bytes that encode `e`: size, base, length and type in little-endian
/// order, then the extension bytes that the declared size calls for.
pub open spec fn encode_entry(e: RawEntry) -> Seq<u8> {
    spec_u32_to_le_bytes(e.size) + spec_u64_to_le_bytes(e.base_addr) + spec_u64_to_le_bytes(
        e.length,
    ) + spec_u32_to_le_bytes(e.typ) + Seq::new(extension_len(e.size), |_i: int| EXTENSION_FILL)
}

/// Appends the wire encoding of `entry` to `buf`.
pub fn push_entry(buf: &mut Vec<u8>, entry: RawEntry)
    ensures
        final(buf)@ == old(buf)@ + encode_entry(entry),
{
    let size = entry.get_size_unaligned();
    let mut bytes = u32_to_le_bytes(size);
    buf.append(&mut bytes);
    let mut bytes = u64_to_le_bytes(entry.get_base_addr_unaligned());
    buf.append(&mut bytes);
    let mut bytes = u64_to_le_bytes(entry.get_length_unaligned());
    buf.append(&mut bytes);
    let mut bytes = u32_to_le_bytes(entry.get_type_unaligned());
    buf.append(&mut bytes);
    let ghost fixed = buf@;
    let extra: u32 = if size > MIN_PAYLOAD {
        size - MIN_PAYLOAD
    } else {
        0
    };
    let mut i: u32 = 0;
    while i < extra
        invariant
            i <= extra,
            extra == extension_len(size),
            buf@ == fixed + Seq::new(i as nat, |_j: int| EXTENSION_FILL),
        decreases extra - i,
    {
        buf.push(EXTENSION_FILL);
        i = i + 1;
        assert(buf@ =~= fixed + Seq::new(i as nat, |_j: int| EXTENSION_FILL));
    }
    assert(buf@ =~= old(buf)@ + encode_entry(entry));
}

/// Reads one record from the start of `buf`.
///
/// The size field is checked before the payload is read, and no byte past
/// `4 + size` is looked at.
pub fn read_one(buf: &[u8]) -> (r: Result<(RawEntry, usize), MmapError>)
    ensures
        r == parse_entry(buf@),
{
    let have = buf.len();
    if have < 4 {
        return Err(MmapError::TruncatedHeader { have });
    }
    let size = u32_from_le_bytes(slice_subrange(buf, 0, 4));
    if size < MIN_PAYLOAD {
        return Err(MmapError::SizeTooSmall { size });
    }
    let needed: u64 = 4 + size as u64;
    if (have as u64) < needed {
        return Err(MmapError::TruncatedEntry { needed, have });
    }
    let base_addr = u64_from_le_bytes(slice_subrange(buf, 4, 12));
    let length = u64_from_le_bytes(slice_subrange(buf, 12, 20));
    let typ = u32_from_le_bytes(slice_subrange(buf, 20, 24));
    Ok((RawEntry { size, base_addr, length, typ }, needed as usize))
}

/// The wire encoding of `e` has the length the record declares.
pub proof fn lemma_encode_len(e: RawEntry)
    requires
        e.size >= MIN_PAYLOAD,
    ensures
        encode_entry(e).len() == wire_len(e.size),
{
    lemma_auto_spec_u32_to_from_le_bytes();
    lemma_auto_spec_u64_to_from_le_bytes();
}

/// Round trip: decoding the encoding of a record whose size is at least the
/// minimum gives back the same record, preserving its size, and consumes
/// exactly `4 + size` bytes, whatever bytes follow it.
pub proof fn lemma_round_trip(e: RawEntry, rest: Seq<u8>)
    requires
        e.size >= MIN_PAYLOAD,
    ensures
        parse_entry(encode_entry(e) + rest) == Ok::<(RawEntry, usize), MmapError>(
            (e, wire_len(e.size) as usize),
        ),
{
    lemma_auto_spec_u32_to_from_le_bytes();
    lemma_auto_spec_u64_to_from_le_bytes();
    let b = encode_entry(e) + rest;
    assert(b.subrange(0, 4) =~= spec_u32_to_le_bytes(e.size));
    assert(b.subrange(4, 12) =~= spec_u64_to_le_bytes(e.base_addr));
    assert(b.subrange(12, 20) =~= spec_u64_to_le_bytes(e.length));
    assert(b.subrange(20, 24) =~= spec_u32_to_le_bytes(e.typ));
}

/// Truncation: a strict prefix of the encoding of a valid record never
/// parses. With fewer than four bytes the header is reported truncated;
/// otherwise the record is, with `needed == 4 + size` and the prefix length.
pub proof fn lemma_truncated_prefix(e: RawEntry, m: int)
    requires
        e.size >= MIN_PAYLOAD,
        0 <= m < wire_len(e.size),
    ensures
        parse_entry(encode_entry(e).subrange(0, m)) == if m < 4 {
            Err::<(RawEntry, usize), MmapError>(MmapError::TruncatedHeader { have: m as usize })
        } else {
            Err::<(RawEntry, usize), MmapError>(
                MmapError::TruncatedEntry { needed: wire_len(e.size) as u64, have: m as usize },
            )
        },
{
    lemma_auto_spec_u32_to_from_le_bytes();
    lemma_auto_spec_u64_to_from_le_bytes();
    let b = encode_entry(e).subrange(0, m);
    if m >= 4 {
        assert(b.subrange(0, 4) =~= spec_u32_to_le_bytes(e.size));
    }
}

/// Only the first 24 bytes of a buffer, and its length, decide what the
/// parser returns: extension bytes never affect the decoded fields.
pub proof fn lemma_extension_bytes_ignored(a: Seq<u8>, b: Seq<u8>)
    requires
        a.len() == b.len(),
        forall|i: int| 0 <= i < 24 && i < a.len() ==> a[i] == b[i],
    ensures
        parse_entry(a) == parse_entry(b),
{
    if a.len() >= 4 {
        assert(a.subrange(0, 4) =~= b.subrange(0, 4));
    }
    if a.len() >= 24 {
        assert(a.subrange(4, 12) =~= b.subrange(4, 12));
        assert(a.subrange(12, 20) =~= b.subrange(12, 20));
        assert(a.subrange(20, 24) =~= b.subrange(20, 24));
    }
}

} // verus!
