//! Turning a firmware claim into a trusted memory region.
use vstd::prelude::*;

use crate::entry::RawEntry;

verus! {

/// A sanitized memory range.
#[derive(Clone, Copy, Debug, PartialEq, Eq)]
pub struct MemRegion {
    pub start: u64,
    pub len: u64,
    /// Class code carried over from the record; `1` means usable RAM.
    pub kind: u32,
}

impl MemRegion {
    /// What the sanitizer guarantees of every region it returns: the range
    /// is not empty and does not run past the top of the address space.
    pub open spec fn wf(self) -> bool {
        self.len > 0 && self.start + self.len <= u64::MAX
    }

    /// One past the last address of the region, clamped to `u64::MAX`.
    pub open spec fn spec_end(self) -> u64 {
        if self.start + self.len <= u64::MAX {
            (self.start + self.len) as u64
        } else {
            u64::MAX
        }
    }

    /// The end address, computed so that it never wraps below `start`.
    pub fn end(self) -> (r: u64)
        ensures
            r == self.spec_end(),
            r >= self.start,
    {
        self.start.saturating_add(self.len)
    }
}

/// The region that a record describes, unless it is empty or wraps past the
/// top of the address space.
pub open spec fn sanitized(e: RawEntry) -> Option<MemRegion> {
    if e.length == 0 || e.base_addr + e.length > u64::MAX {
        None
    } else {
        Some(MemRegion { start: e.base_addr, len: e.length, kind: e.typ })
    }
}

/// Rejects records that cannot describe usable address space. The kind is
/// passed through untouched.
pub fn sanitize(e: RawEntry) -> (r: Option<MemRegion>)
    ensures
        r == sanitized(e),
        e.length == 0 ==> r is None,
        e.base_addr + e.length > u64::MAX ==> r is None,
        r matches Some(m) ==> m.wf() && m.spec_end() == e.base_addr + e.length,
{
    if e.length == 0 {
        return None;
    }
    match e.base_addr.checked_add(e.length) {
        Some(_) => Some(MemRegion { start: e.base_addr, len: e.length, kind: e.typ }),
        None => None,
    }
}

} // verus!
