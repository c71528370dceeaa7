//! Expanding sanitized regions into aligned physical page frames.
use vstd::prelude::*;

use crate::region::MemRegion;

verus! {

/// Size and alignment of a physical frame.
pub const FRAME_SIZE: u64 = 4096;

/// The class code of usable RAM.
pub const USABLE: u32 = 1;

/// One physical page, named by its base address.
#[derive(Clone, Copy, Debug, PartialEq, Eq)]
pub struct PhysFrame(pub u64);

/// The least multiple of the frame size that is not below `x`.
pub open spec fn spec_align_up(x: int) -> int {
    x + (FRAME_SIZE - x % FRAME_SIZE as int) % FRAME_SIZE as int
}

/// The greatest multiple of the frame size that is not above `x`.
pub open spec fn spec_align_down(x: int) -> int {
    x - x % FRAME_SIZE as int
}

/// The frames at `s`, `s + FRAME_SIZE`, ... that end at or below `e`.
pub open spec fn frame_run(s: int, e: int) -> Seq<PhysFrame> {
    if s < e {
        Seq::new(
            ((e - s) / FRAME_SIZE as int) as nat,
            |i: int| PhysFrame((s + i * FRAME_SIZE) as u64),
        )
    } else {
        Seq::empty()
    }
}

/// The whole frames that lie inside `r`, in ascending order; none unless
/// `r` is usable.
pub open spec fn region_frames(r: MemRegion) -> Seq<PhysFrame> {
    if r.kind != USABLE {
        Seq::empty()
    } else {
        frame_run(spec_align_up(r.start as int), spec_align_down(r.spec_end() as int))
    }
}

/// The frames of each region of `rs` in turn.
pub open spec fn usable_frames(rs: Seq<MemRegion>) -> Seq<PhysFrame>
    decreases rs.len(),
{
    if rs.len() == 0 {
        Seq::empty()
    } else {
        region_frames(rs[0]) + usable_frames(rs.drop_first())
    }
}

/// The frames of two lists of regions placed one after the other are the
/// frames of the first list followed by those of the second.
pub proof fn lemma_usable_frames_concat(a: Seq<MemRegion>, b: Seq<MemRegion>)
    ensures
        usable_frames(a + b) == usable_frames(a) + usable_frames(b),
    decreases a.len(),
{
    if a.len() == 0 {
        assert(a + b =~= b);
        assert(usable_frames(a) + usable_frames(b) =~= usable_frames(b));
    } else {
        lemma_usable_frames_concat(a.drop_first(), b);
        assert((a + b).drop_first() =~= a.drop_first() + b);
        assert(usable_frames(a + b) =~= usable_frames(a) + usable_frames(b));
    }
}

/// A region that is not usable contributes no frame, whatever its size,
/// its alignment or its place among the other regions.
pub proof fn lemma_unusable_region_has_no_frames(
    a: Seq<MemRegion>,
    r: MemRegion,
    b: Seq<MemRegion>,
)
    requires
        r.kind != USABLE,
    ensures
        region_frames(r).len() == 0,
        usable_frames(a + seq![r] + b) == usable_frames(a + b),
{
    lemma_usable_frames_concat(a + seq![r], b);
    lemma_usable_frames_concat(a, seq![r]);
    lemma_usable_frames_concat(a, b);
    assert(seq![r].drop_first() =~= Seq::<MemRegion>::empty());
    assert(usable_frames(Seq::<MemRegion>::empty()) == Seq::<PhysFrame>::empty());
    assert(seq![r][0] == r);
    assert(usable_frames(seq![r]) =~= Seq::<PhysFrame>::empty());
    assert(usable_frames(a) + usable_frames(seq![r]) =~= usable_frames(a));
}

/// Every frame enumerated from `rs` is aligned to the frame size and lies
/// wholly inside some usable region of `rs`.
pub proof fn lemma_frames_in_usable_regions(rs: Seq<MemRegion>, i: int)
    requires
        0 <= i < usable_frames(rs).len(),
    ensures
        usable_frames(rs)[i].0 % FRAME_SIZE == 0,
        exists|j: int|
            #![trigger rs[j]]
            {
                &&& 0 <= j < rs.len()
                &&& rs[j].kind == USABLE
                &&& rs[j].start <= usable_frames(rs)[i].0
                &&& usable_frames(rs)[i].0 + FRAME_SIZE <= rs[j].spec_end()
            },
    decreases rs.len(),
{
    let head = region_frames(rs[0]);
    let tail = rs.drop_first();
    if i < head.len() {
        let s = spec_align_up(rs[0].start as int);
        let e = spec_align_down(rs[0].spec_end() as int);
        assert(s + i * FRAME_SIZE + FRAME_SIZE <= e);
        assert(rs[0].start <= usable_frames(rs)[i].0);
    } else {
        lemma_frames_in_usable_regions(tail, i - head.len());
        let j = choose|j: int|
            #![trigger tail[j]]
            {
                &&& 0 <= j < tail.len()
                &&& tail[j].kind == USABLE
                &&& tail[j].start <= usable_frames(tail)[i - head.len()].0
                &&& usable_frames(tail)[i - head.len()].0 + FRAME_SIZE <= tail[j].spec_end()
            };
        assert(rs[j + 1] == tail[j]);
    }
}

/// Frame addresses that strictly increase from each item to the next.
pub open spec fn strictly_ascending(fs: Seq<PhysFrame>) -> bool {
    forall|i: int, j: int| 0 <= i < j < fs.len() ==> fs[i].0 < fs[j].0
}

/// When every region ends at or before the start of each later one, the
/// frames come out in strictly ascending order, so none is yielded twice.
pub proof fn lemma_frames_ascending(rs: Seq<MemRegion>)
    requires
        forall|i: int, j: int|
            0 <= i < j < rs.len() ==> #[trigger] rs[i].spec_end() <= #[trigger] rs[j].start,
    ensures
        strictly_ascending(usable_frames(rs)),
    decreases rs.len(),
{
    if rs.len() > 0 {
        let tail = rs.drop_first();
        assert forall|i: int, j: int| 0 <= i < j < tail.len() implies #[trigger] tail[i].spec_end()
            <= #[trigger] tail[j].start by {
            assert(tail[i] == rs[i + 1] && tail[j] == rs[j + 1]);
        }
        lemma_frames_ascending(tail);
        let head = region_frames(rs[0]);
        let fs = usable_frames(rs);
        assert forall|i: int, j: int| 0 <= i < j < fs.len() implies fs[i].0 < fs[j].0 by {
            if j < head.len() {
            } else if i >= head.len() {
                assert(fs[i] == usable_frames(tail)[i - head.len()]);
                assert(fs[j] == usable_frames(tail)[j - head.len()]);
            } else {
                lemma_frames_in_usable_regions(rs, i);
                lemma_frames_in_usable_regions(tail, j - head.len());
                let k = choose|k: int|
                    #![trigger tail[k]]
                    {
                        &&& 0 <= k < tail.len()
                        &&& tail[k].kind == USABLE
                        &&& tail[k].start <= usable_frames(tail)[j - head.len()].0
                        &&& usable_frames(tail)[j - head.len()].0 + FRAME_SIZE
                            <= tail[k].spec_end()
                    };
                assert(tail[k] == rs[k + 1]);
                assert(rs[0].spec_end() <= rs[k + 1].start);
                let e = spec_align_down(rs[0].spec_end() as int);
                let s = spec_align_up(rs[0].start as int);
                assert(s + i * FRAME_SIZE + FRAME_SIZE <= e);
            }
        }
    }
}

fn align_up(x: u64) -> (r: u64)
    requires
        x + (FRAME_SIZE - 1) <= u64::MAX,
    ensures
        r == spec_align_up(x as int),
{
    let y = x + (FRAME_SIZE - 1);
    let r = y & !(FRAME_SIZE - 1);
    assert(y & !4095u64 == y - y % 4096) by (bit_vector);
    r
}

fn align_down(x: u64) -> (r: u64)
    ensures
        r == spec_align_down(x as int),
{
    let r = x & !(FRAME_SIZE - 1);
    assert(x & !4095u64 == x - x % 4096) by (bit_vector);
    r
}

/// A run of aligned frames that is not empty starts with its first frame.
proof fn lemma_frame_run_first(s: int, e: int)
    requires
        s < e,
        s % FRAME_SIZE as int == 0,
        e % FRAME_SIZE as int == 0,
        e <= u64::MAX,
    ensures
        s + FRAME_SIZE <= e,
        frame_run(s, e) == seq![PhysFrame(s as u64)] + frame_run(s + FRAME_SIZE, e),
{
    let tail = frame_run(s + FRAME_SIZE, e);
    assert(frame_run(s, e) =~= seq![PhysFrame(s as u64)] + tail);
}

/// A pull-based enumeration of the usable frames of a list of regions.
pub struct UsableFrames<'a> {
    regions: &'a [MemRegion],
    next_region: usize,
    current: u64,
    end: u64,
}

impl<'a> UsableFrames<'a> {
    #[verifier::type_invariant]
    spec fn cursor_aligned(self) -> bool {
        &&& self.next_region <= self.regions@.len()
        &&& self.current <= self.end
        &&& self.current % FRAME_SIZE == 0
        &&& self.end % FRAME_SIZE == 0
    }

    /// The frames that the following calls of `next` will yield.
    pub closed spec fn pending(self) -> Seq<PhysFrame> {
        frame_run(self.current as int, self.end as int) + usable_frames(
            self.regions@.subrange(self.next_region as int, self.regions@.len() as int),
        )
    }

    /// Starts before the first region of `regions`.
    pub fn new(regions: &'a [MemRegion]) -> (r: Self)
        ensures
            r.pending() == usable_frames(regions@),
    {
        let r = UsableFrames { regions, next_region: 0, current: 0, end: 0 };
        assert(regions@.subrange(0, regions@.len() as int) =~= regions@);
        assert(r.pending() =~= usable_frames(regions@));
        r
    }

    /// Yields the next frame, or `None` once every region is exhausted.
    pub fn next(&mut self) -> (r: Option<PhysFrame>)
        ensures
            old(self).pending().len() == 0 ==> {
                &&& r.is_none()
                &&& final(self).pending() == old(self).pending()
            },
            old(self).pending().len() > 0 ==> {
                &&& r == Some(old(self).pending()[0])
                &&& final(self).pending() == old(self).pending().drop_first()
            },
    {
        proof {
            use_type_invariant(&*self);
        }
        let regions = self.regions;
        let n = regions.len();
        let ghost rest = usable_frames(regions@.subrange(self.next_region as int, n as int));
        if self.current < self.end {
            let f = self.current;
            proof {
                lemma_frame_run_first(f as int, self.end as int);
            }
            self.current = f + FRAME_SIZE;
            assert(old(self).pending() =~= seq![PhysFrame(f)] + self.pending());
            return Some(PhysFrame(f));
        }
        assert(old(self).pending() =~= rest);
        let mut k = self.next_region;
        while k < n
            invariant
                self.next_region <= k <= n,
                n == regions@.len(),
                *self == *old(self),
                self.regions == regions,
                self.current == self.end,
                old(self).pending() == usable_frames(regions@.subrange(k as int, n as int)),
            decreases n - k,
        {
            let r = regions[k];
            let ghost tail = regions@.subrange(k + 1, n as int);
            assert(regions@.subrange(k as int, n as int).drop_first() =~= tail);
            k = k + 1;
            if r.kind == USABLE && r.start <= u64::MAX - (FRAME_SIZE - 1) {
                let s = align_up(r.start);
                let e = align_down(r.end());
                if s < e {
                    proof {
                        lemma_frame_run_first(s as int, e as int);
                    }
                    *self = UsableFrames { regions, next_region: k, current: s + FRAME_SIZE, end: e };
                    assert(old(self).pending() =~= seq![PhysFrame(s)] + self.pending());
                    return Some(PhysFrame(s));
                }
            }
            assert(region_frames(r) =~= Seq::<PhysFrame>::empty());
            assert(old(self).pending() =~= usable_frames(tail));
        }
        self.next_region = n;
        assert(regions@.subrange(n as int, n as int) =~= Seq::<MemRegion>::empty());
        assert(self.pending() =~= old(self).pending());
        None
    }
}

} // verus!
