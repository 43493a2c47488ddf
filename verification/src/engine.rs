//! The rescue engine's decisions: which aligned reads to issue next, how a
//! completed read changes the map, and when a pass or a phase is done.
//!
//! The engine owns no device and no file. It holds the map, the device
//! geometry and the session counters, and its methods are pure decisions
//! over them; the surrounding program performs the reads and writes and
//! hands back plain values.

use vstd::prelude::*;

use core::ops::Range;

use vstd::arithmetic::div_mod::lemma_fundamental_div_mod;
use vstd::arithmetic::div_mod::lemma_mod_bound;
use vstd::arithmetic::div_mod::lemma_mod_multiples_basic;

use crate::map_file::Histogram;
use crate::map_file::MapFile;
use crate::map_file::MapModel;
use crate::map_file::SectorState;
use crate::tagged_range::lemma_tag_at_covered;
use crate::tagged_range::lemma_tag_at_some;
use crate::tagged_range::runs_tag_at;

verus! {

/// Byte counters over the whole session: bytes read successfully, bytes
/// that failed, and the number of completed requests. The counters stick at
/// their maximum rather than wrap.
#[derive(Clone, Copy, Debug, PartialEq, Eq, Structural)]
pub struct Stats {
    pub good: u64,
    pub bad: u64,
    pub requests: u64,
}

impl Stats {
    pub fn new() -> (s: Stats)
        ensures
            s == (Stats { good: 0, bad: 0, requests: 0 }),
    {
        Stats { good: 0, bad: 0, requests: 0 }
    }
}

/// `x` rounded down to a multiple of `a`.
pub open spec fn align_down(x: int, a: int) -> int {
    (x / a) * a
}

/// `x` rounded up to a multiple of `a`.
pub open spec fn align_up(x: int, a: int) -> int {
    ((x + a - 1) / a) * a
}

/// Where a read beginning at `start` must stop: the next physical block
/// boundary, or `end` if that comes first.
pub open spec fn next_block_end(start: int, end: int, pbs: int) -> int {
    if align_down(start, pbs) + pbs < end {
        align_down(start, pbs) + pbs
    } else {
        end
    }
}

/// The first byte of the sector-aligned expansion of a range.
pub open spec fn read_span_lo(start: int, sector_size: int) -> int {
    align_down(start, sector_size)
}

/// One past the last byte of the sector-aligned expansion of a range,
/// clamped to the device.
pub open spec fn read_span_hi(end: int, sector_size: int, size_bytes: int) -> int {
    if align_up(end, sector_size) < size_bytes {
        align_up(end, sector_size)
    } else {
        size_bytes
    }
}

/// The aligned reads that walk `[start, end)`, each stopping at the next
/// physical block boundary.
pub open spec fn reads_of(start: int, end: int, pbs: int) -> Seq<(u64, u64)>
    decreases end - start when 0 < pbs via reads_of_decreases
{
    if start < end && 0 < pbs {
        seq![(start as u64, next_block_end(start, end, pbs) as u64)] + reads_of(
            next_block_end(start, end, pbs),
            end,
            pbs,
        )
    } else {
        Seq::empty()
    }
}

#[via_fn]
proof fn reads_of_decreases(start: int, end: int, pbs: int) {
    if start < end && 0 < pbs {
        lemma_fundamental_div_mod(start, pbs);
        lemma_mod_bound(start, pbs);
        assert(align_down(start, pbs) + pbs > start) by (nonlinear_arith)
            requires
                start == pbs * (start / pbs) + (start % pbs),
                0 <= start % pbs < pbs,
                align_down(start, pbs) == (start / pbs) * pbs,
        ;
    }
}

pub proof fn lemma_align_down(x: int, a: int)
    requires
        0 <= x,
        0 < a,
    ensures
        0 <= align_down(x, a) <= x,
        x < align_down(x, a) + a,
        align_down(x, a) % a == 0,
{
    lemma_fundamental_div_mod(x, a);
    lemma_mod_bound(x, a);
    lemma_mod_multiples_basic(x / a, a);
    assert(0 <= (x / a) * a <= x && x < (x / a) * a + a) by (nonlinear_arith)
        requires
            0 <= x,
            0 < a,
            x == a * (x / a) + (x % a),
            0 <= x % a < a,
    ;
}

pub proof fn lemma_align_up(x: int, a: int)
    requires
        0 <= x,
        0 < a,
    ensures
        x <= align_up(x, a),
        align_up(x, a) < x + a,
        align_up(x, a) % a == 0,
        0 <= align_up(x, a),
{
    lemma_align_down(x + a - 1, a);
}

/// Rounding down respects order.
pub proof fn lemma_align_down_ordered(x: int, y: int, a: int)
    requires
        0 <= x <= y,
        0 < a,
    ensures
        align_down(x, a) <= align_down(y, a),
{
    lemma_align_down(x, a);
    lemma_align_down(y, a);
    assert(align_down(x, a) <= align_down(y, a)) by (nonlinear_arith)
        requires
            0 < a,
            x <= y,
            align_down(x, a) == (x / a) * a,
            align_down(y, a) == (y / a) * a,
            align_down(x, a) <= x,
            x < align_down(x, a) + a,
            align_down(y, a) <= y,
            y < align_down(y, a) + a,
            align_down(x, a) % a == 0,
            align_down(y, a) % a == 0,
    ;
}

/// A multiple of a multiple of `a` is a multiple of `a`.
pub proof fn lemma_multiple_mod(x: int, a: int, b: int)
    requires
        0 < a,
        0 < b,
        b % a == 0,
        x % b == 0,
    ensures
        x % a == 0,
{
    lemma_fundamental_div_mod(b, a);
    lemma_fundamental_div_mod(x, b);
    let q = (b / a) * (x / b);
    assert(x == a * q) by (nonlinear_arith)
        requires
            b == a * (b / a) + (b % a),
            b % a == 0,
            x == b * (x / b) + (x % b),
            x % b == 0,
            q == (b / a) * (x / b),
    ;
    lemma_mod_multiples_basic(q, a);
}

/// The runs of `rs` tagged with `target`, in order.
pub open spec fn target_regions(
    rs: Seq<crate::tagged_range::Region>,
    target: SectorState,
) -> Seq<crate::tagged_range::Region>
    decreases rs.len(),
{
    if rs.len() == 0 {
        Seq::empty()
    } else if rs[0].tag == target {
        seq![rs[0]] + target_regions(rs.drop_first(), target)
    } else {
        target_regions(rs.drop_first(), target)
    }
}

/// The aligned reads for a list of regions, in order: each region widened
/// to sector bounds, clamped to the device, and walked one physical block
/// at a time.
pub open spec fn region_reads(
    rs: Seq<crate::tagged_range::Region>,
    ss: int,
    pbs: int,
    size: int,
) -> Seq<(u64, u64)>
    decreases rs.len(),
{
    if rs.len() == 0 {
        Seq::empty()
    } else {
        reads_of(read_span_lo(rs[0].start as int, ss), read_span_hi(rs[0].end(), ss, size), pbs)
            + region_reads(rs.drop_first(), ss, pbs, size)
    }
}

/// The first `n` reads, or all of them if there are fewer.
pub open spec fn take_at_most(s: Seq<(u64, u64)>, n: int) -> Seq<(u64, u64)> {
    if s.len() <= n {
        s
    } else {
        s.take(n)
    }
}

/// What one refill returns: the first `batch` of the aligned reads for the
/// target-tagged runs at or past the scan position. The whole batch is a
/// function of the map and the geometry alone, which is why a session
/// resumed from a persisted map selects exactly the work the interrupted
/// one would have.
pub open spec fn refill_spec(
    m: MapModel,
    target: SectorState,
    ss: int,
    pbs: int,
    batch: int,
) -> Seq<(u64, u64)> {
    take_at_most(
        region_reads(
            target_regions(
                crate::tagged_range::clipped_regions(m.runs, m.pos as int, m.size_bytes as int),
                target,
            ),
            ss,
            pbs,
            m.size_bytes as int,
        ),
        batch,
    )
}

pub proof fn lemma_target_regions_push(
    rs: Seq<crate::tagged_range::Region>,
    r: crate::tagged_range::Region,
    target: SectorState,
)
    ensures
        target_regions(rs.push(r), target) == target_regions(rs, target) + (if r.tag == target {
            seq![r]
        } else {
            Seq::empty()
        }),
    decreases rs.len(),
{
    if rs.len() == 0 {
        assert(rs.push(r)[0] == r);
        assert(rs.push(r).drop_first() =~= Seq::<crate::tagged_range::Region>::empty());
        assert(target_regions(Seq::<crate::tagged_range::Region>::empty(), target) == Seq::<
            crate::tagged_range::Region,
        >::empty());
        if r.tag == target {
            assert(target_regions(rs.push(r), target) == seq![r] + Seq::<
                crate::tagged_range::Region,
            >::empty());
            assert(target_regions(rs.push(r), target) =~= target_regions(rs, target) + seq![r]);
        } else {
            assert(target_regions(rs.push(r), target) == Seq::<
                crate::tagged_range::Region,
            >::empty());
            assert(target_regions(rs.push(r), target) =~= target_regions(rs, target) + Seq::<
                crate::tagged_range::Region,
            >::empty());
        }
    } else {
        assert(rs.push(r)[0] == rs[0]);
        assert(rs.push(r).drop_first() == rs.drop_first().push(r)) by {
            assert(rs.push(r).drop_first() =~= rs.drop_first().push(r));
        }
        lemma_target_regions_push(rs.drop_first(), r, target);
        let tail = target_regions(rs.drop_first(), target);
        let ext = if r.tag == target {
            seq![r]
        } else {
            Seq::<crate::tagged_range::Region>::empty()
        };
        assert(target_regions(rs.drop_first().push(r), target) == tail + ext);
        if rs[0].tag == target {
            assert(target_regions(rs.push(r), target) == seq![rs[0]] + (tail + ext));
            assert(target_regions(rs, target) == seq![rs[0]] + tail);
            assert(seq![rs[0]] + (tail + ext) =~= (seq![rs[0]] + tail) + ext);
        } else {
            assert(target_regions(rs.push(r), target) == tail + ext);
            assert(target_regions(rs, target) == tail);
        }
    }
}

pub proof fn lemma_region_reads_push(
    rs: Seq<crate::tagged_range::Region>,
    r: crate::tagged_range::Region,
    ss: int,
    pbs: int,
    size: int,
)
    ensures
        region_reads(rs.push(r), ss, pbs, size) == region_reads(rs, ss, pbs, size) + reads_of(
            read_span_lo(r.start as int, ss),
            read_span_hi(r.end(), ss, size),
            pbs,
        ),
    decreases rs.len(),
{
    if rs.len() == 0 {
        assert(rs.push(r)[0] == r);
        assert(rs.push(r).drop_first() =~= Seq::<crate::tagged_range::Region>::empty());
        assert(region_reads(Seq::<crate::tagged_range::Region>::empty(), ss, pbs, size) == Seq::<
            (u64, u64),
        >::empty());
        let ext = reads_of(read_span_lo(r.start as int, ss), read_span_hi(r.end(), ss, size), pbs);
        assert(region_reads(rs.push(r), ss, pbs, size) == ext + Seq::<(u64, u64)>::empty());
        assert(region_reads(rs.push(r), ss, pbs, size) =~= region_reads(rs, ss, pbs, size) + ext);
    } else {
        assert(rs.push(r)[0] == rs[0]);
        assert(rs.push(r).drop_first() == rs.drop_first().push(r)) by {
            assert(rs.push(r).drop_first() =~= rs.drop_first().push(r));
        }
        lemma_region_reads_push(rs.drop_first(), r, ss, pbs, size);
        let head = reads_of(
            read_span_lo(rs[0].start as int, ss),
            read_span_hi(rs[0].end(), ss, size),
            pbs,
        );
        let tail = region_reads(rs.drop_first(), ss, pbs, size);
        let ext = reads_of(read_span_lo(r.start as int, ss), read_span_hi(r.end(), ss, size), pbs);
        assert(region_reads(rs.drop_first().push(r), ss, pbs, size) == tail + ext);
        assert(region_reads(rs.push(r), ss, pbs, size) == head + (tail + ext));
        assert(region_reads(rs, ss, pbs, size) == head + tail);
        assert(head + (tail + ext) =~= (head + tail) + ext);
    }
}

/// Walks a byte range in reads that each stop at the next physical block
/// boundary.
#[derive(Clone, Debug)]
pub struct ReadIter {
    pub start: u64,
    pub end: u64,
    pub physical_block_size: u64,
}

impl ReadIter {
    pub open spec fn wf(self) -> bool {
        0 < self.physical_block_size && self.end + self.physical_block_size <= u64::MAX
    }

    /// The next read: from the current position to the next physical block
    /// boundary, or to the end of the range if that comes first.
    pub fn next(&mut self) -> (r: Option<Range<u64>>)
        requires
            old(self).wf(),
        ensures
            final(self).wf(),
            final(self).end == old(self).end,
            final(self).physical_block_size == old(self).physical_block_size,
            match r {
                Some(p) => {
                    &&& old(self).start < old(self).end
                    &&& p.start == old(self).start
                    &&& p.end == next_block_end(
                        old(self).start as int,
                        old(self).end as int,
                        old(self).physical_block_size as int,
                    )
                    &&& p.start < p.end <= old(self).end
                    &&& final(self).start == p.end
                },
                None => {
                    &&& old(self).start >= old(self).end
                    &&& *final(self) == *old(self)
                },
            },
    {
        if self.start < self.end {
            let pbs = self.physical_block_size;
            proof {
                lemma_align_down(self.start as int, pbs as int);
            }
            let b = (self.start / pbs) * pbs + pbs;
            let e = if b < self.end {
                b
            } else {
                self.end
            };
            let s = self.start;
            self.start = e;
            Some(s..e)
        } else {
            None
        }
    }
}

/// The iterator over the aligned reads for one range: the range is widened
/// to sector boundaries, clamped to the device, and walked one physical
/// block at a time.
pub fn range_to_reads(
    range: &Range<u64>,
    sector_size: u64,
    physical_block_size: u64,
    size_bytes: u64,
) -> (it: ReadIter)
    requires
        0 < sector_size,
        0 < physical_block_size,
        physical_block_size % sector_size == 0,
        size_bytes % sector_size == 0,
        range.start <= range.end,
        range.end <= size_bytes,
        size_bytes + physical_block_size <= u64::MAX,
    ensures
        it.wf(),
        it.physical_block_size == physical_block_size,
        it.start == read_span_lo(range.start as int, sector_size as int),
        it.end == read_span_hi(range.end as int, sector_size as int, size_bytes as int),
        it.start <= it.end,
        it.start % sector_size == 0,
{
    let ss = sector_size;
    proof {
        lemma_align_down(range.start as int, ss as int);
        lemma_align_up(range.end as int, ss as int);
        assert(physical_block_size >= sector_size) by {
            if physical_block_size < sector_size {
                lemma_mod_bound(physical_block_size as int, sector_size as int);
                vstd::arithmetic::div_mod::lemma_small_mod(
                    physical_block_size as nat,
                    sector_size as nat,
                );
            }
        }
    }
    let start = (range.start / ss) * ss;
    let up = ((range.end + (ss - 1)) / ss) * ss;
    let end = if up < size_bytes {
        up
    } else {
        size_bytes
    };
    ReadIter { start, end, physical_block_size }
}

/// All the aligned reads for one range, in ascending order.
///
/// This is the read-splitting rule in full: the reads are non-empty,
/// sector-aligned on both sides, each lies within a single physical block,
/// consecutive reads touch, and together they cover exactly the
/// sector-aligned expansion of the range clamped to the device.
pub fn split_reads(
    range: &Range<u64>,
    sector_size: u64,
    physical_block_size: u64,
    size_bytes: u64,
) -> (reads: Vec<(u64, u64)>)
    requires
        0 < sector_size,
        0 < physical_block_size,
        physical_block_size % sector_size == 0,
        size_bytes % sector_size == 0,
        range.start <= range.end,
        range.end <= size_bytes,
        size_bytes + physical_block_size <= u64::MAX,
    ensures
        forall|k: int|
            0 <= k < reads@.len() ==> ((#[trigger] reads@[k]).0 < reads@[k].1 && reads@[k].1
                <= size_bytes && reads@[k].0 % sector_size == 0 && reads@[k].1 % sector_size == 0
                && reads@[k].1 <= align_down(reads@[k].0 as int, physical_block_size as int)
                + physical_block_size && read_span_lo(range.start as int, sector_size as int) <= (
            reads@[k]).0),
        forall|k: int|
            0 <= k && k + 1 < reads@.len() ==> (#[trigger] reads@[k]).1 == reads@[k + 1].0,
        reads@.len() == 0 <==> read_span_lo(range.start as int, sector_size as int)
            == read_span_hi(range.end as int, sector_size as int, size_bytes as int),
        reads@.len() > 0 ==> reads@[0].0 == read_span_lo(range.start as int, sector_size as int)
            && reads@.last().1 == read_span_hi(
            range.end as int,
            sector_size as int,
            size_bytes as int,
        ),
        reads@ == reads_of(
            read_span_lo(range.start as int, sector_size as int),
            read_span_hi(range.end as int, sector_size as int, size_bytes as int),
            physical_block_size as int,
        ),
{
    let ghost lo = read_span_lo(range.start as int, sector_size as int);
    let ghost hi = read_span_hi(range.end as int, sector_size as int, size_bytes as int);
    let mut it = range_to_reads(range, sector_size, physical_block_size, size_bytes);
    let mut reads: Vec<(u64, u64)> = Vec::new();
    proof {
        lemma_align_down(range.start as int, sector_size as int);
        lemma_align_up(range.end as int, sector_size as int);
    }
    loop
        invariant
            it.wf(),
            it.physical_block_size == physical_block_size,
            it.end == hi,
            0 < sector_size,
            0 < physical_block_size,
            physical_block_size % sector_size == 0,
            size_bytes % sector_size == 0,
            hi <= size_bytes,
            hi % (sector_size as int) == 0,
            it.start % sector_size == 0,
            lo <= it.start <= hi,
            reads@.len() == 0 ==> it.start == lo,
            reads@.len() > 0 ==> reads@[0].0 == lo && reads@.last().1 == it.start
                && it.start > lo,
            forall|k: int|
                0 <= k < reads@.len() ==> ((#[trigger] reads@[k]).0 < reads@[k].1 && reads@[k].1
                    <= size_bytes && reads@[k].0 % sector_size == 0 && reads@[k].1 % sector_size
                    == 0 && reads@[k].1 <= align_down(
                    reads@[k].0 as int,
                    physical_block_size as int,
                ) + physical_block_size && lo <= (reads@[k]).0),
            forall|k: int|
                0 <= k && k + 1 < reads@.len() ==> (#[trigger] reads@[k]).1 == reads@[k + 1].0,
            reads@ + reads_of(it.start as int, hi, physical_block_size as int) == reads_of(
                lo,
                hi,
                physical_block_size as int,
            ),
        ensures
            it.start == hi,
        decreases it.end - it.start,
    {
        let ghost before = reads@;
        let r = match it.next() {
            Some(r) => r,
            None => {
                break ;
            },
        };
        proof {
            lemma_align_down(r.start as int, physical_block_size as int);
            // the stopping point is sector-aligned: a block boundary is a
            // multiple of the physical block size, itself a multiple of the
            // sector size
            if (r.end as int) == align_down(r.start as int, physical_block_size as int)
                + physical_block_size {
                let q = (r.start as int) / (physical_block_size as int) + 1;
                assert(r.end as int == q * physical_block_size) by (nonlinear_arith)
                    requires
                        r.end as int == ((r.start as int) / (physical_block_size as int)) * (
                        physical_block_size as int) + physical_block_size,
                        q == (r.start as int) / (physical_block_size as int) + 1,
                ;
                lemma_mod_multiples_basic(q, physical_block_size as int);
                lemma_multiple_mod(r.end as int, sector_size as int, physical_block_size as int);
            }
        }
        reads.push((r.start, r.end));
        proof {
            assert(reads@ == before.push((r.start, r.end)));
            assert(reads_of(r.start as int, hi, physical_block_size as int) == seq![
                (r.start, r.end),
            ] + reads_of(r.end as int, hi, physical_block_size as int));
            assert(reads@ + reads_of(r.end as int, hi, physical_block_size as int) =~= before
                + reads_of(r.start as int, hi, physical_block_size as int));
            assert forall|k: int|
                0 <= k < reads@.len() implies ((#[trigger] reads@[k]).0 < reads@[k].1
                && reads@[k].1 <= size_bytes && reads@[k].0 % sector_size == 0 && reads@[k].1
                % sector_size == 0 && reads@[k].1 <= align_down(
                reads@[k].0 as int,
                physical_block_size as int,
            ) + physical_block_size && lo <= (reads@[k]).0) by {
                if k < before.len() {
                    assert(reads@[k] == before[k]);
                } else {
                    assert(reads@[k] == (r.start, r.end));
                }
            }
            assert forall|k: int|
                0 <= k && k + 1 < reads@.len() implies (#[trigger] reads@[k]).1 == reads@[k
                + 1].0 by {
                if k + 1 < before.len() {
                    assert(reads@[k] == before[k] && reads@[k + 1] == before[k + 1]);
                } else {
                    assert(reads@[k + 1] == (r.start, r.end));
                    if before.len() > 0 {
                        assert(reads@[k] == before[k] && before[k] == before.last());
                    }
                }
            }
        }
    }
    reads
}

/// Whether every byte of `data` is zero; a read whose data is all zero is
/// not written, which keeps the destination sparse.
pub fn is_all_zeros(data: &[u8]) -> (r: bool)
    ensures
        r <==> (forall|i: int| 0 <= i < data@.len() ==> data@[i] == 0),
{
    let n = data.len();
    let mut i: usize = 0;
    while i < n
        invariant
            0 <= i <= n,
            n == data@.len(),
            forall|j: int| 0 <= j < i ==> data@[j] == 0,
        decreases n - i,
    {
        if data[i] != 0 {
            return false;
        }
        i += 1;
    }
    true
}

/// What the surrounding program must do with a completed request.
#[derive(Clone, Copy, Debug, PartialEq, Eq, Structural)]
pub enum CompletionAction {
    /// The read succeeded and its data is not all zero: write it to the
    /// destination at the request's offset.
    WriteData,
    /// The read succeeded but returned only zeros: skip the write so the
    /// destination stays sparse.
    SkipZeros,
    /// The read failed; nothing is written.
    MarkedBad,
}

/// The rescue engine's verified core: the map, the device geometry, and the
/// session counters.
#[derive(Debug)]
pub struct Engine {
    map: MapFile,
    histogram: Histogram,
    stats: Stats,
    sector_size: u64,
    physical_block_size: u64,
}

impl Engine {
    pub closed spec fn map_model(self) -> MapModel {
        self.map@
    }

    pub closed spec fn stats_spec(self) -> Stats {
        self.stats
    }

    pub closed spec fn histogram_spec(self) -> Histogram {
        self.histogram
    }

    pub closed spec fn sector_size_spec(self) -> u64 {
        self.sector_size
    }

    pub closed spec fn physical_block_size_spec(self) -> u64 {
        self.physical_block_size
    }

    pub closed spec fn map_wf(self) -> bool {
        self.map.wf()
    }

    pub open spec fn wf(self) -> bool {
        &&& self.map_wf()
        &&& self.histogram_spec().matches(self.map_model().runs)
        &&& 0 < self.sector_size_spec()
        &&& 0 < self.physical_block_size_spec()
        &&& self.physical_block_size_spec() % self.sector_size_spec() == 0
        &&& self.map_model().size_bytes % self.sector_size_spec() == 0
        &&& self.map_model().size_bytes + self.physical_block_size_spec() <= u64::MAX
    }

    /// Build the engine over a loaded or fresh map. The engine's whole
    /// state is a function of the map and the geometry, which is what makes
    /// resuming from a persisted map sound.
    pub fn new(map: MapFile, sector_size: u64, physical_block_size: u64) -> (e: Engine)
        requires
            map.wf(),
            0 < sector_size,
            0 < physical_block_size,
            physical_block_size % sector_size == 0,
            map@.size_bytes % sector_size == 0,
            map@.size_bytes + physical_block_size <= u64::MAX,
        ensures
            e.wf(),
            e.map_model() == map@,
            e.stats_spec() == (Stats { good: 0, bad: 0, requests: 0 }),
            e.sector_size_spec() == sector_size,
            e.physical_block_size_spec() == physical_block_size,
    {
        let histogram = map.get_histogram();
        Engine { map, histogram, stats: Stats::new(), sector_size, physical_block_size }
    }

    /// The map as it would be persisted.
    pub fn map_file(&self) -> (m: &MapFile)
        ensures
            m@ == self.map_model(),
            m.wf() == self.map_wf(),
    {
        &self.map
    }

    /// The current per-state byte totals.
    pub fn histogram(&self) -> (h: Histogram)
        requires
            self.wf(),
        ensures
            h.matches(self.map_model().runs),
    {
        self.histogram
    }

    pub fn stats(&self) -> (s: Stats)
        ensures
            s == self.stats_spec(),
    {
        self.stats
    }

    /// Whether no byte in `[lo, hi)` carries the tag the phase targets.
    fn no_target_in(&self, lo: u64, hi: u64, target: SectorState) -> (r: bool)
        requires
            self.map_wf(),
            lo <= hi,
        ensures
            r <==> !(exists|off: int|
                lo <= off < hi && #[trigger] runs_tag_at(self.map_model().runs, off) == Some(
                    target,
                )),
    {
        let mut it = self.map.iter_range(lo..hi);
        let ghost regions = it.regions();
        let ghost m = self.map_model();
        loop
            invariant
                it.wf(),
                0 <= it.index(),
                it.regions() == regions,
                crate::tagged_range::wf_runs(regions),
                lo <= hi,
                forall|k: int|
                    0 <= k < regions.len() ==> lo <= (#[trigger] regions[k]).start
                        && regions[k].end() <= hi,
                forall|off: int|
                    lo <= off < hi ==> #[trigger] runs_tag_at(regions, off) == runs_tag_at(
                        m.runs,
                        off,
                    ),
                m == self.map_model(),
                forall|k: int| 0 <= k < it.index() ==> (#[trigger] regions[k]).tag != target,
            ensures
                it.index() >= regions.len(),
                forall|k: int| 0 <= k < regions.len() ==> (#[trigger] regions[k]).tag != target,
            decreases regions.len() - it.index() + 1,
        {
            let ghost idx = it.index();
            let r = match it.next() {
                Some(r) => r,
                None => {
                    break ;
                },
            };
            proof {
                assert(idx < regions.len());
                assert(regions[idx] == r);
                assert(regions[idx].wf());
            }
            if r.tag == target {
                proof {
                    let off = r.start as int;
                    assert(regions[idx].contains(off));
                    lemma_tag_at_some(regions, idx, off);
                    assert(regions[idx].end() <= hi);
                    assert(lo <= off < hi);
                    assert(runs_tag_at(m.runs, off) == Some(target));
                }
                return false;
            }
        }
        proof {
            assert forall|off: int|
                lo <= off < hi implies #[trigger] runs_tag_at(m.runs, off) != Some(target) by {
                if runs_tag_at(regions, off) is Some {
                    lemma_tag_at_covered(regions, off);
                    let k = choose|k: int|
                        0 <= k < regions.len() && (#[trigger] regions[k]).contains(off)
                            && runs_tag_at(regions, off) == Some(regions[k].tag);
                    assert(regions[k].tag != target);
                }
            }
        }
        true
    }

    /// Whether the running pass has nothing left to try at or past the scan
    /// position.
    pub fn is_pass_complete(&self) -> (r: bool)
        requires
            self.wf(),
        ensures
            r <==> match self.map_model().phase.spec_target() {
                Some(t) => !(exists|off: int|
                    self.map_model().pos <= off < self.map_model().size_bytes
                        && #[trigger] runs_tag_at(self.map_model().runs, off) == Some(t)),
                None => true,
            },
    {
        let target = match self.map.get_phase().target_sectors() {
            Some(t) => t,
            None => {
                return true;
            },
        };
        let pos = self.map.get_pos();
        let size = self.map.get_size();
        if pos >= size {
            proof {
                assert forall|off: int|
                    self.map_model().pos <= off < self.map_model().size_bytes implies
                    #[trigger] runs_tag_at(self.map_model().runs, off) != Some(target) by {}
            }
            return true;
        }
        self.no_target_in(pos, size, target)
    }

    /// Whether the running phase has nothing left to try anywhere.
    pub fn is_phase_complete(&self) -> (r: bool)
        requires
            self.wf(),
        ensures
            r <==> match self.map_model().phase.spec_target() {
                Some(t) => !(exists|off: int|
                    0 <= off < self.map_model().size_bytes && #[trigger] runs_tag_at(
                        self.map_model().runs,
                        off,
                    ) == Some(t)),
                None => true,
            },
    {
        let target = match self.map.get_phase().target_sectors() {
            Some(t) => t,
            None => {
                return true;
            },
        };
        let size = self.map.get_size();
        self.no_target_in(0, size, target)
    }

    /// The next batch of aligned reads for the running pass: the runs at or
    /// past the scan position whose tag the phase targets, expanded into
    /// physical-block-sized reads, at most `batch` of them. An empty batch
    /// means the pass has nothing left at or past the scan position.
    #[verifier::rlimit(60)]
    pub fn refill_reads(&self, batch: usize) -> (reads: Vec<(u64, u64)>)
        requires
            self.wf(),
            batch > 0,
        ensures
            reads@.len() <= batch,
            forall|k: int|
                0 <= k < reads@.len() ==> ((#[trigger] reads@[k]).0 < reads@[k].1 && reads@[k].1
                    <= self.map_model().size_bytes && reads@[k].0 % self.sector_size_spec() == 0
                    && reads@[k].1 % self.sector_size_spec() == 0 && reads@[k].1 <= align_down(
                    reads@[k].0 as int,
                    self.physical_block_size_spec() as int,
                ) + self.physical_block_size_spec() && align_down(
                    self.map_model().pos as int,
                    self.sector_size_spec() as int,
                ) <= reads@[k].0),
            match self.map_model().phase.spec_target() {
                Some(t) => (reads@.len() > 0 <==> exists|off: int|
                    self.map_model().pos <= off < self.map_model().size_bytes
                        && #[trigger] runs_tag_at(self.map_model().runs, off) == Some(t))
                    && reads@ == refill_spec(
                    self.map_model(),
                    t,
                    self.sector_size_spec() as int,
                    self.physical_block_size_spec() as int,
                    batch as int,
                ),
                None => reads@.len() == 0,
            },
    {
        let ghost m = self.map_model();
        let ghost ss = self.sector_size_spec() as int;
        let ghost pbs = self.physical_block_size_spec() as int;
        let mut reads: Vec<(u64, u64)> = Vec::new();
        let target = match self.map.get_phase().target_sectors() {
            Some(t) => t,
            None => {
                return reads;
            },
        };
        let pos = self.map.get_pos();
        let size = self.map.get_size();
        if pos >= size {
            proof {
                assert forall|off: int|
                    m.pos <= off < m.size_bytes implies #[trigger] runs_tag_at(m.runs, off)
                    != Some(target) by {}
                crate::tagged_range::lemma_clipped_regions_empty(
                    m.runs,
                    m.pos as int,
                    m.size_bytes as int,
                );
                assert(reads@ =~= refill_spec(m, target, ss, pbs, batch as int));
            }
            return reads;
        }
        let mut it = self.map.iter_range(pos..size);
        let ghost regions = it.regions();
        let sector_size = self.sector_size;
        let physical_block_size = self.physical_block_size;
        let size_bytes = size;
        proof {
            assert(regions.take(0) =~= Seq::<crate::tagged_range::Region>::empty());
            assert(reads@ =~= take_at_most(
                region_reads(
                    target_regions(regions.take(0), target),
                    ss,
                    pbs,
                    size_bytes as int,
                ),
                batch as int,
            ));
        }
        loop
            invariant
                it.wf(),
                0 <= it.index() <= regions.len(),
                it.regions() == regions,
                regions == crate::tagged_range::clipped_regions(m.runs, pos as int, size as int),
                reads@ == take_at_most(
                    region_reads(
                        target_regions(regions.take(it.index()), target),
                        ss,
                        pbs,
                        size_bytes as int,
                    ),
                    batch as int,
                ),
                crate::tagged_range::wf_runs(regions),
                pos < size,
                size == m.size_bytes,
                pos == m.pos,
                m == self.map_model(),
                sector_size == self.sector_size_spec(),
                physical_block_size == self.physical_block_size_spec(),
                ss == sector_size as int,
                pbs == physical_block_size as int,
                size_bytes == size,
                0 < sector_size,
                0 < physical_block_size,
                physical_block_size % sector_size == 0,
                size_bytes % sector_size == 0,
                size_bytes + physical_block_size <= u64::MAX,
                0 < batch,
                forall|k: int|
                    0 <= k < regions.len() ==> pos <= (#[trigger] regions[k]).start
                        && regions[k].end() <= size,
                forall|off: int|
                    pos <= off < size ==> #[trigger] runs_tag_at(regions, off) == runs_tag_at(
                        m.runs,
                        off,
                    ),
                reads@.len() <= batch,
                forall|k: int|
                    0 <= k < reads@.len() ==> ((#[trigger] reads@[k]).0 < reads@[k].1
                        && reads@[k].1 <= m.size_bytes && reads@[k].0 % sector_size == 0
                        && reads@[k].1 % sector_size == 0 && reads@[k].1 <= align_down(
                        reads@[k].0 as int,
                        pbs,
                    ) + pbs && align_down(m.pos as int, ss) <= reads@[k].0),
                reads@.len() > 0 ==> exists|off: int|
                    m.pos <= off < m.size_bytes && #[trigger] runs_tag_at(m.runs, off) == Some(
                        target,
                    ),
                reads@.len() == 0 ==> forall|k: int|
                    0 <= k < it.index() ==> (#[trigger] regions[k]).tag != target,
            ensures
                reads@.len() <= batch,
                reads@.len() == 0 ==> it.index() >= regions.len(),
                it.index() == regions.len(),
                reads@ == take_at_most(
                    region_reads(
                        target_regions(regions.take(it.index()), target),
                        ss,
                        pbs,
                        size_bytes as int,
                    ),
                    batch as int,
                ),
            decreases regions.len() - it.index() + 1,
        {
            let ghost idx = it.index();
            let r = match it.next() {
                Some(r) => r,
                None => {
                    break ;
                },
            };
            proof {
                assert(idx < regions.len());
                assert(regions[idx] == r);
                assert(regions[idx].wf());
            }
            let ghost tr_i = target_regions(regions.take(idx), target);
            let ghost full_i = region_reads(tr_i, ss, pbs, size_bytes as int);
            let ghost ext = reads_of(
                read_span_lo(r.start as int, ss),
                read_span_hi(r.end(), ss, size_bytes as int),
                pbs,
            );
            proof {
                assert(regions.take(idx + 1) =~= regions.take(idx).push(r));
                lemma_target_regions_push(regions.take(idx), r, target);
                if r.tag == target {
                    assert(target_regions(regions.take(idx + 1), target) == tr_i + seq![r]);
                    assert(tr_i + seq![r] =~= tr_i.push(r));
                    lemma_region_reads_push(tr_i, r, ss, pbs, size_bytes as int);
                    assert(region_reads(
                        target_regions(regions.take(idx + 1), target),
                        ss,
                        pbs,
                        size_bytes as int,
                    ) == full_i + ext);
                } else {
                    assert(target_regions(regions.take(idx + 1), target) == tr_i + Seq::<
                        crate::tagged_range::Region,
                    >::empty());
                    assert(tr_i + Seq::<crate::tagged_range::Region>::empty() =~= tr_i);
                }
            }
            if r.tag == target && reads.len() < batch {
                let chunk = split_reads(
                    &r.as_range(),
                    sector_size,
                    physical_block_size,
                    size_bytes,
                );
                proof {
                    // this run is work for the phase, so the batch will not
                    // be empty
                    let off = r.start as int;
                    assert(regions[idx].contains(off));
                    lemma_tag_at_some(regions, idx, off);
                    assert(runs_tag_at(m.runs, off) == Some(target));
                    lemma_align_down_ordered(pos as int, r.start as int, ss);
                    lemma_align_down(r.start as int, ss);
                    assert(read_span_lo(r.start as int, ss) < read_span_hi(
                        r.start as int + r.length as int,
                        ss,
                        size_bytes as int,
                    )) by {
                        lemma_align_up(r.start as int + r.length as int, ss);
                    }
                    assert(chunk@.len() > 0);
                    assert(chunk@ == ext);
                    assert(chunk@.take(0) =~= Seq::<(u64, u64)>::empty());
                    assert(full_i + chunk@.take(0) =~= full_i);
                }
                let ghost before = reads@;
                let mut j: usize = 0;
                let n = chunk.len();
                while j < n
                    invariant
                        0 <= j <= n,
                        n == chunk@.len(),
                        n > 0,
                        reads@.len() <= batch,
                        0 < batch,
                        m == self.map_model(),
                        sector_size == self.sector_size_spec(),
                        physical_block_size == self.physical_block_size_spec(),
                        ss == sector_size as int,
                        pbs == physical_block_size as int,
                        pos == m.pos,
                        size_bytes == m.size_bytes,
                        exists|off: int|
                            m.pos <= off < m.size_bytes && #[trigger] runs_tag_at(m.runs, off)
                                == Some(target),
                        align_down(m.pos as int, ss) <= read_span_lo(
                            regions[idx].start as int,
                            ss,
                        ),
                        0 <= idx < regions.len(),
                        regions[idx].wf(),
                        regions[idx].end() <= size_bytes,
                        forall|k: int|
                            0 <= k < chunk@.len() ==> ((#[trigger] chunk@[k]).0 < chunk@[k].1
                                && chunk@[k].1 <= size_bytes && chunk@[k].0 % sector_size == 0
                                && chunk@[k].1 % sector_size == 0 && chunk@[k].1 <= align_down(
                                chunk@[k].0 as int,
                                pbs,
                            ) + pbs && read_span_lo(regions[idx].start as int, ss) <= (
                            chunk@[k]).0),
                        forall|k: int|
                            0 <= k < reads@.len() ==> ((#[trigger] reads@[k]).0 < reads@[k].1
                                && reads@[k].1 <= m.size_bytes && reads@[k].0 % sector_size == 0
                                && reads@[k].1 % sector_size == 0 && reads@[k].1 <= align_down(
                                reads@[k].0 as int,
                                pbs,
                            ) + pbs && align_down(m.pos as int, ss) <= reads@[k].0),
                        j > 0 ==> reads@.len() > 0,
                        reads@ == take_at_most(full_i + chunk@.take(j as int), batch as int),
                    decreases n - j,
                {
                    proof {
                        assert(chunk@.take(j as int + 1) =~= chunk@.take(j as int).push(
                            chunk@[j as int],
                        ));
                    }
                    if reads.len() < batch {
                        let ghost rb = reads@;
                        let p = chunk[j];
                        proof {
                            // the batch has room, so nothing has been cut
                            // off yet
                            if (full_i + chunk@.take(j as int)).len() > batch {
                                assert(rb.len() == batch);
                            }
                            assert(rb == full_i + chunk@.take(j as int));
                        }
                        reads.push(p);
                        proof {
                            assert(reads@ =~= full_i + chunk@.take(j as int + 1));
                            assert(reads@ == take_at_most(
                                full_i + chunk@.take(j as int + 1),
                                batch as int,
                            ));
                        }
                        proof {
                            assert(reads@ == rb.push(p));
                            assert forall|k: int|
                                0 <= k < reads@.len() implies ((#[trigger] reads@[k]).0
                                < reads@[k].1 && reads@[k].1 <= m.size_bytes && reads@[k].0
                                % sector_size == 0 && reads@[k].1 % sector_size == 0
                                && reads@[k].1 <= align_down(reads@[k].0 as int, pbs) + pbs
                                && align_down(m.pos as int, ss) <= reads@[k].0) by {
                                if k < rb.len() {
                                    assert(reads@[k] == rb[k]);
                                } else {
                                    assert(reads@[k] == chunk@[j as int]);
                                }
                            }
                        }
                    } else {
                        proof {
                            // the batch is full; everything further is cut
                            let x = full_i + chunk@.take(j as int);
                            let x2 = full_i + chunk@.take(j as int + 1);
                            assert(x2 =~= x.push(chunk@[j as int]));
                            assert(reads@.len() == batch);
                            if x.len() < batch {
                                assert(reads@ == x);
                                assert(false);
                            }
                            assert(take_at_most(x2, batch as int) =~= take_at_most(
                                x,
                                batch as int,
                            ));
                        }
                    }
                    j += 1;
                }
                proof {
                    // at least one read went in: either the batch had room
                    // for the first chunk entry, or it was already full and
                    // so non-empty
                    assert(reads@.len() > 0);
                    assert(chunk@.take(n as int) =~= chunk@);
                    assert(reads@ == take_at_most(full_i + ext, batch as int));
                    assert(reads@ == take_at_most(
                        region_reads(
                            target_regions(regions.take(idx + 1), target),
                            ss,
                            pbs,
                            size_bytes as int,
                        ),
                        batch as int,
                    ));
                }
            } else {
                proof {
                    if r.tag == target {
                        // the batch is already full; this run's reads are
                        // all cut off
                        assert(reads@.len() == batch);
                        if full_i.len() < batch {
                            assert(reads@ == full_i);
                            assert(false);
                        }
                        assert(take_at_most(full_i + ext, batch as int) =~= take_at_most(
                            full_i,
                            batch as int,
                        ));
                    } else {
                        assert(region_reads(
                            target_regions(regions.take(idx + 1), target),
                            ss,
                            pbs,
                            size_bytes as int,
                        ) == full_i);
                    }
                }
            }
        }
        proof {
            if reads@.len() == 0 {
                assert forall|off: int|
                    m.pos <= off < m.size_bytes implies #[trigger] runs_tag_at(m.runs, off)
                    != Some(target) by {
                    if runs_tag_at(regions, off) is Some {
                        lemma_tag_at_covered(regions, off);
                        let k = choose|k: int|
                            0 <= k < regions.len() && (#[trigger] regions[k]).contains(off)
                                && runs_tag_at(regions, off) == Some(regions[k].tag);
                        assert(regions[k].tag != target);
                    }
                }
            }
            assert(regions.take(regions.len() as int) =~= regions);
            assert(reads@ == refill_spec(m, target, ss, pbs, batch as int));
        }
        reads
    }

    /// Raise the scan position to the end of a submitted read.
    pub fn note_submitted(&mut self, read_end: u64)
        requires
            old(self).wf(),
        ensures
            final(self).wf(),
            final(self).map_model() == (MapModel {
                pos: if old(self).map_model().pos >= read_end {
                    old(self).map_model().pos
                } else {
                    read_end
                },
                ..old(self).map_model()
            }),
            final(self).stats_spec() == old(self).stats_spec(),
            final(self).sector_size_spec() == old(self).sector_size_spec(),
            final(self).physical_block_size_spec() == old(self).physical_block_size_spec(),
    {
        let pos = self.map.get_pos();
        if read_end > pos {
            self.map.set_pos(read_end);
        }
    }

    /// Fold one completed request into the map and the counters: a positive
    /// result rescues its bytes, anything else marks the whole request bad.
    /// The returned action tells the caller whether to write the data.
    pub fn apply_completion(
        &mut self,
        offset: u64,
        size: u64,
        result: i64,
        data_zero: bool,
    ) -> (act: CompletionAction)
        requires
            old(self).wf(),
            offset + size <= old(self).map_model().size_bytes,
            result <= size as int,
        ensures
            final(self).wf(),
            final(self).sector_size_spec() == old(self).sector_size_spec(),
            final(self).physical_block_size_spec() == old(self).physical_block_size_spec(),
            final(self).map_model().pos == old(self).map_model().pos,
            final(self).map_model().phase == old(self).map_model().phase,
            final(self).map_model().pass == old(self).map_model().pass,
            final(self).map_model().size_bytes == old(self).map_model().size_bytes,
            result > 0 ==> {
                &&& forall|off: int|
                    offset <= off < offset + result ==> #[trigger] runs_tag_at(
                        final(self).map_model().runs,
                        off,
                    ) == Some(SectorState::Rescued)
                &&& forall|off: int|
                    !(offset <= off < offset + result) ==> #[trigger] runs_tag_at(
                        final(self).map_model().runs,
                        off,
                    ) == runs_tag_at(old(self).map_model().runs, off)
                &&& act == (if data_zero {
                    CompletionAction::SkipZeros
                } else {
                    CompletionAction::WriteData
                })
                &&& final(self).stats_spec().good == (if old(self).stats_spec().good + result
                    <= u64::MAX {
                    (old(self).stats_spec().good + result) as u64
                } else {
                    u64::MAX
                })
                &&& final(self).stats_spec().bad == old(self).stats_spec().bad
            },
            result <= 0 ==> {
                &&& forall|off: int|
                    offset <= off < offset + size ==> #[trigger] runs_tag_at(
                        final(self).map_model().runs,
                        off,
                    ) == Some(SectorState::Bad)
                &&& forall|off: int|
                    !(offset <= off < offset + size) ==> #[trigger] runs_tag_at(
                        final(self).map_model().runs,
                        off,
                    ) == runs_tag_at(old(self).map_model().runs, off)
                &&& act == CompletionAction::MarkedBad
                &&& final(self).stats_spec().bad == (if old(self).stats_spec().bad + size
                    <= u64::MAX {
                    (old(self).stats_spec().bad + size) as u64
                } else {
                    u64::MAX
                })
                &&& final(self).stats_spec().good == old(self).stats_spec().good
            },
            final(self).stats_spec().requests == (if old(self).stats_spec().requests < u64::MAX {
                old(self).stats_spec().requests + 1
            } else {
                u64::MAX as int
            }),
    {
        if self.stats.requests < u64::MAX {
            self.stats.requests = self.stats.requests + 1;
        }
        let act: CompletionAction;
        if result > 0 {
            let got = result as u64;
            self.map.put(offset..(offset + got), SectorState::Rescued);
            if self.stats.good <= u64::MAX - got {
                self.stats.good = self.stats.good + got;
            } else {
                self.stats.good = u64::MAX;
            }
            act = if data_zero {
                CompletionAction::SkipZeros
            } else {
                CompletionAction::WriteData
            };
        } else {
            self.map.put(offset..(offset + size), SectorState::Bad);
            if self.stats.bad <= u64::MAX - size {
                self.stats.bad = self.stats.bad + size;
            } else {
                self.stats.bad = u64::MAX;
            }
            act = CompletionAction::MarkedBad;
        }
        let h = self.map.get_histogram();
        self.histogram = h;
        act
    }

    /// A pass went to the end without being interrupted: rewind the scan
    /// position and count the next pass.
    pub fn start_next_pass(&mut self)
        requires
            old(self).wf(),
            old(self).map_model().pass < usize::MAX,
        ensures
            final(self).wf(),
            final(self).map_model() == (MapModel {
                pos: 0,
                pass: (old(self).map_model().pass + 1) as u64,
                ..old(self).map_model()
            }),
            final(self).stats_spec() == old(self).stats_spec(),
            final(self).sector_size_spec() == old(self).sector_size_spec(),
            final(self).physical_block_size_spec() == old(self).physical_block_size_spec(),
    {
        self.map.set_pos(0);
        self.map.next_pass();
    }

    /// Enter a phase: the pass counter starts at one.
    pub fn begin_phase(&mut self)
        requires
            old(self).wf(),
        ensures
            final(self).wf(),
            final(self).map_model() == (MapModel { pass: 1, ..old(self).map_model() }),
            final(self).stats_spec() == old(self).stats_spec(),
            final(self).sector_size_spec() == old(self).sector_size_spec(),
            final(self).physical_block_size_spec() == old(self).physical_block_size_spec(),
    {
        self.map.set_pass(1);
    }

    /// Step to the phase that follows the current one in the schedule.
    pub fn next_phase(&mut self)
        requires
            old(self).wf(),
            old(self).map_model().phase.spec_next() is Some,
        ensures
            final(self).wf(),
            final(self).map_model() == (MapModel {
                phase: old(self).map_model().phase.spec_next().unwrap(),
                ..old(self).map_model()
            }),
            final(self).stats_spec() == old(self).stats_spec(),
            final(self).sector_size_spec() == old(self).sector_size_spec(),
            final(self).physical_block_size_spec() == old(self).physical_block_size_spec(),
    {
        let next = self.map.get_phase().next();
        match next {
            Some(p) => {
                self.map.set_phase(&p);
            },
            None => {
                proof {
                    assert(false);
                }
            },
        }
    }
}

} // verus!
