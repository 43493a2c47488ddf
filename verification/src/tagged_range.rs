//! The tagged interval map: a dense mapping from byte offsets to sector
//! states, stored as ordered, disjoint, coalesced runs.

use vstd::prelude::*;

use core::ops::Range;

use crate::map_file::SectorState;

verus! {

/// One contiguous range of bytes sharing a tag.
#[derive(Clone, Copy, Debug, PartialEq, Eq, Structural)]
pub struct Region {
    pub start: u64,
    pub length: u64,
    pub tag: SectorState,
}

impl Region {
    /// A region is meaningful when it is non-empty and its end does not
    /// overflow the address space.
    pub open spec fn wf(self) -> bool {
        0 < self.length && self.start + self.length <= u64::MAX
    }

    /// The first offset past the region.
    pub open spec fn end(self) -> int {
        self.start + self.length
    }

    /// Whether the region covers the byte at `off`.
    pub open spec fn contains(self, off: int) -> bool {
        self.start <= off < self.end()
    }

    pub fn new(start: u64, length: u64, tag: SectorState) -> (r: Region)
        requires
            start + length <= u64::MAX,
        ensures
            r == (Region { start, length, tag }),
    {
        Region { start, length, tag }
    }

    pub fn as_range(&self) -> (r: Range<u64>)
        requires
            self.start + self.length <= u64::MAX,
        ensures
            r.start == self.start,
            r.end == self.start + self.length,
    {
        self.start..(self.start + self.length)
    }
}

/// Runs that are individually well-formed, ordered by start, and disjoint:
/// each run ends at or before the next begins.
pub open spec fn ordered_runs(s: Seq<Region>) -> bool {
    &&& forall|k: int| 0 <= k < s.len() ==> (#[trigger] s[k]).wf()
    &&& forall|k: int|
        #![trigger s[k], s[k + 1]]
        0 <= k && k + 1 < s.len() ==> s[k].end() <= s[k + 1].start
}

/// No two adjacent touching runs share a tag.
pub open spec fn coalesced_runs(s: Seq<Region>) -> bool {
    forall|k: int|
        #![trigger s[k], s[k + 1]]
        0 <= k && k + 1 < s.len() && s[k].end() == s[k + 1].start ==> s[k].tag != s[k + 1].tag
}

pub open spec fn wf_runs(s: Seq<Region>) -> bool {
    ordered_runs(s) && coalesced_runs(s)
}

/// The tag recorded for the byte at `off`: the tag of the last run in the
/// sequence that covers it, `None` where no run does. On ordered disjoint
/// runs at most one run covers any byte; on a raw sequence of region lines
/// the most recent line wins.
pub open spec fn runs_tag_at(s: Seq<Region>, off: int) -> Option<SectorState>
    decreases s.len(),
{
    if s.len() == 0 {
        None
    } else if s.last().contains(off) {
        Some(s.last().tag)
    } else {
        runs_tag_at(s.drop_last(), off)
    }
}

pub proof fn lemma_ordered_drop_last(s: Seq<Region>)
    requires
        ordered_runs(s),
        s.len() > 0,
    ensures
        ordered_runs(s.drop_last()),
        coalesced_runs(s) ==> coalesced_runs(s.drop_last()),
{
    let d = s.drop_last();
    assert forall|k: int| 0 <= k < d.len() implies (#[trigger] d[k]).wf() by {
        assert(d[k] == s[k]);
    }
    assert forall|k: int|
        #![trigger d[k], d[k + 1]]
        0 <= k && k + 1 < d.len() implies d[k].end() <= d[k + 1].start by {
        assert(d[k] == s[k] && d[k + 1] == s[k + 1]);
        assert(s[k].end() <= s[k + 1].start);
    }
    if coalesced_runs(s) {
        assert forall|k: int|
            #![trigger d[k], d[k + 1]]
            0 <= k && k + 1 < d.len() && d[k].end() == d[k + 1].start implies d[k].tag != d[k
                + 1].tag by {
            assert(d[k] == s[k] && d[k + 1] == s[k + 1]);
            assert(s[k].end() == s[k + 1].start ==> s[k].tag != s[k + 1].tag);
        }
    }
}

/// Any earlier run ends at or before any later run begins.
pub proof fn lemma_ordered_span(s: Seq<Region>, i: int, j: int)
    requires
        ordered_runs(s),
        0 <= i < j < s.len(),
    ensures
        s[i].end() <= s[j].start,
    decreases j - i,
{
    if i + 1 < j {
        lemma_ordered_span(s, i, j - 1);
        let m = j - 1;
        assert(s[m].wf());
        assert(s[m].end() <= s[m + 1].start);
    } else {
        assert(s[i].end() <= s[i + 1].start);
    }
}

/// A byte inside run `k` of ordered runs is tagged with that run's tag.
pub proof fn lemma_tag_at_some(s: Seq<Region>, k: int, off: int)
    requires
        ordered_runs(s),
        0 <= k < s.len(),
        s[k].contains(off),
    ensures
        runs_tag_at(s, off) == Some(s[k].tag),
    decreases s.len(),
{
    if k < s.len() - 1 {
        lemma_ordered_span(s, k, s.len() - 1);
        lemma_ordered_drop_last(s);
        assert(s.drop_last()[k] == s[k]);
        lemma_tag_at_some(s.drop_last(), k, off);
    }
}

/// A byte inside no run is tagged with nothing.
pub proof fn lemma_tag_at_none(s: Seq<Region>, off: int)
    requires
        forall|k: int| 0 <= k < s.len() ==> !(#[trigger] s[k]).contains(off),
    ensures
        runs_tag_at(s, off) is None,
    decreases s.len(),
{
    if s.len() > 0 {
        assert forall|k: int|
            0 <= k < s.drop_last().len() implies !(#[trigger] s.drop_last()[k]).contains(off) by {
            assert(s.drop_last()[k] == s[k]);
        }
        lemma_tag_at_none(s.drop_last(), off);
    }
}

/// A tagged byte lies inside some run carrying that tag.
pub proof fn lemma_tag_at_covered(s: Seq<Region>, off: int)
    requires
        runs_tag_at(s, off) is Some,
    ensures
        exists|k: int|
            0 <= k < s.len() && (#[trigger] s[k]).contains(off) && runs_tag_at(s, off) == Some(
                s[k].tag,
            ),
    decreases s.len(),
{
    if s.last().contains(off) {
        assert(s[s.len() - 1].contains(off));
    } else {
        lemma_tag_at_covered(s.drop_last(), off);
        let k = choose|k: int|
            0 <= k < s.drop_last().len() && (#[trigger] s.drop_last()[k]).contains(off)
                && runs_tag_at(s.drop_last(), off) == Some(s.drop_last()[k].tag);
        assert(s.drop_last()[k] == s[k]);
        assert(s[k].contains(off) && runs_tag_at(s, off) == Some(s[k].tag));
    }
}

/// Appending a run makes it win over the runs before it.
pub proof fn lemma_tag_at_push(s: Seq<Region>, r: Region, off: int)
    ensures
        runs_tag_at(s.push(r), off) == if r.contains(off) {
            Some(r.tag)
        } else {
            runs_tag_at(s, off)
        },
{
    assert(s.push(r).last() == r);
    assert(s.push(r).drop_last() =~= s);
}

/// Runs past index `i` that all begin above `off` cannot affect its tag.
pub proof fn lemma_tag_at_take(s: Seq<Region>, i: int, off: int)
    requires
        0 <= i <= s.len(),
        forall|k: int| i <= k < s.len() ==> off < (#[trigger] s[k]).start,
    ensures
        runs_tag_at(s.take(i), off) == runs_tag_at(s, off),
    decreases s.len() - i,
{
    if i == s.len() {
        assert(s.take(i) =~= s);
    } else {
        assert(s[s.len() - 1].start > off);
        assert(!s.last().contains(off));
        assert forall|k: int|
            i <= k < s.drop_last().len() implies off < (#[trigger] s.drop_last()[k]).start by {
            assert(s.drop_last()[k] == s[k]);
        }
        assert(s.drop_last().take(i) =~= s.take(i));
        lemma_tag_at_take(s.drop_last(), i, off);
    }
}

/// Appending a well-formed run past the end of well-formed runs keeps them
/// well-formed, provided a touching pair differs in tag.
pub proof fn lemma_wf_append(s: Seq<Region>, r: Region)
    requires
        wf_runs(s),
        r.wf(),
        s.len() > 0 ==> s.last().end() <= r.start,
        s.len() > 0 && s.last().end() == r.start ==> s.last().tag != r.tag,
    ensures
        wf_runs(s.push(r)),
{
    let t = s.push(r);
    assert forall|k: int| 0 <= k < t.len() implies (#[trigger] t[k]).wf() by {
        if k < s.len() {
            assert(t[k] == s[k]);
        } else {
            assert(t[k] == r);
        }
    }
    assert forall|k: int|
        #![trigger t[k], t[k + 1]]
        0 <= k && k + 1 < t.len() implies t[k].end() <= t[k + 1].start by {
        if k + 1 < s.len() {
            assert(t[k] == s[k] && t[k + 1] == s[k + 1]);
            assert(s[k].end() <= s[k + 1].start);
        } else {
            assert(t[k] == s[k] && t[k + 1] == r);
            assert(s[k] == s.last());
        }
    }
    assert forall|k: int|
        #![trigger t[k], t[k + 1]]
        0 <= k && k + 1 < t.len() && t[k].end() == t[k + 1].start implies t[k].tag != t[k + 1].tag by {
        if k + 1 < s.len() {
            assert(t[k] == s[k] && t[k + 1] == s[k + 1]);
            assert(s[k].end() == s[k + 1].start ==> s[k].tag != s[k + 1].tag);
        } else {
            assert(t[k] == s[k] && t[k + 1] == r);
            assert(s[k] == s.last());
        }
    }
}

/// Whether any byte of `r` lies inside `[lo, hi)`.
pub open spec fn clip_within(r: Region, lo: int, hi: int) -> bool {
    (if r.start < lo {
        lo
    } else {
        r.start as int
    }) < (if r.end() <= hi {
        r.end()
    } else {
        hi
    })
}

/// The part of `r` inside `[lo, hi)`.
pub open spec fn clip_to(r: Region, lo: int, hi: int) -> Region {
    let cs = if r.start < lo {
        lo
    } else {
        r.start as int
    };
    let ce = if r.end() <= hi {
        r.end()
    } else {
        hi
    };
    Region { start: cs as u64, length: (ce - cs) as u64, tag: r.tag }
}

/// The runs clipped to `[lo, hi)`, in order, dropping each run with
/// nothing inside the window.
pub open spec fn clipped_regions(s: Seq<Region>, lo: int, hi: int) -> Seq<Region>
    decreases s.len(),
{
    if s.len() == 0 {
        Seq::empty()
    } else if clip_within(s[0], lo, hi) {
        seq![clip_to(s[0], lo, hi)] + clipped_regions(s.drop_first(), lo, hi)
    } else {
        clipped_regions(s.drop_first(), lo, hi)
    }
}

/// An empty window clips everything away.
pub proof fn lemma_clipped_regions_empty(s: Seq<Region>, lo: int, hi: int)
    requires
        lo >= hi,
    ensures
        clipped_regions(s, lo, hi) == Seq::<Region>::empty(),
    decreases s.len(),
{
    if s.len() > 0 {
        lemma_clipped_regions_empty(s.drop_first(), lo, hi);
    }
}

/// The part of `r` that lies below `lo`.
pub open spec fn clip_left(r: Region, lo: int) -> Region {
    Region {
        start: r.start,
        length: ((if r.end() <= lo {
            r.end()
        } else {
            lo
        }) - r.start) as u64,
        tag: r.tag,
    }
}

/// The first `i` runs of `s`, each clipped to the part below `lo`.
pub open spec fn left_clips(s: Seq<Region>, lo: int, i: int) -> Seq<Region> {
    s.take(i).map_values(|r: Region| clip_left(r, lo))
}

pub proof fn lemma_left_clips_push(s: Seq<Region>, lo: int, i: int)
    requires
        0 <= i < s.len(),
    ensures
        left_clips(s, lo, i + 1) == left_clips(s, lo, i).push(clip_left(s[i], lo)),
{
    assert(left_clips(s, lo, i + 1) =~= left_clips(s, lo, i).push(clip_left(s[i], lo)));
}

/// What the left clips of runs beginning below `lo` look like: well-formed,
/// equal to the original runs below `lo`, and empty at or above it.
#[verifier::rlimit(50)]
pub proof fn lemma_left_clips(s: Seq<Region>, lo: int, i: int)
    requires
        wf_runs(s),
        0 <= i <= s.len(),
        forall|k: int| 0 <= k < i ==> (#[trigger] s[k]).start < lo,
    ensures
        ({
            let c = left_clips(s, lo, i);
            &&& wf_runs(c)
            &&& c.len() == i
            &&& forall|off: int| off < lo ==> runs_tag_at(c, off) == runs_tag_at(s.take(i), off)
            &&& forall|off: int| off >= lo ==> runs_tag_at(c, off) is None
            &&& forall|k: int| 0 <= k < i ==> (#[trigger] c[k]) == clip_left(s[k], lo)
        }),
    decreases i,
{
    let c = left_clips(s, lo, i);
    if i == 0 {
        assert(c =~= Seq::<Region>::empty());
        assert forall|off: int| off < lo implies runs_tag_at(c, off) == runs_tag_at(
            s.take(0),
            off,
        ) by {
            assert(s.take(0) =~= Seq::<Region>::empty());
        }
    } else {
        lemma_left_clips(s, lo, i - 1);
        lemma_left_clips_push(s, lo, i - 1);
        let p = left_clips(s, lo, i - 1);
        let r = s[i - 1];
        let cl = clip_left(r, lo);
        assert(c == p.push(cl));
        assert(r.wf());
        assert(cl.wf());
        assert forall|k: int| 0 <= k < i implies (#[trigger] c[k]) == clip_left(s[k], lo) by {
            if k < i - 1 {
                assert(c[k] == p[k]);
            } else {
                assert(c[k] == cl);
            }
        }
        assert forall|k: int| 0 <= k < c.len() implies (#[trigger] c[k]).wf() by {
            if k < i - 1 {
                assert(c[k] == p[k]);
            } else {
                assert(c[k] == cl);
            }
        }
        assert forall|k: int|
            #![trigger c[k], c[k + 1]]
            0 <= k && k + 1 < c.len() implies c[k].end() <= c[k + 1].start by {
            assert(c[k] == clip_left(s[k], lo));
            assert(c[k + 1] == clip_left(s[k + 1], lo));
            assert(s[k].end() <= s[k + 1].start);
        }
        assert forall|k: int|
            #![trigger c[k], c[k + 1]]
            0 <= k && k + 1 < c.len() && c[k].end() == c[k + 1].start implies c[k].tag != c[k
                + 1].tag by {
            assert(c[k] == clip_left(s[k], lo));
            assert(c[k + 1] == clip_left(s[k + 1], lo));
            assert(s[k].end() <= s[k + 1].start);
            assert(s[k + 1].start < lo);
            // the clip of the left run ends below `lo`, so a touching pair
            // was already touching before clipping
            assert(s[k].end() == s[k + 1].start ==> s[k].tag != s[k + 1].tag);
        }
        assert forall|off: int| off < lo implies runs_tag_at(c, off) == runs_tag_at(
            s.take(i),
            off,
        ) by {
            lemma_tag_at_push(p, cl, off);
            assert(s.take(i) =~= s.take(i - 1).push(r));
            lemma_tag_at_push(s.take(i - 1), r, off);
            assert(cl.contains(off) == r.contains(off));
        }
        assert forall|off: int| off >= lo implies runs_tag_at(c, off) is None by {
            lemma_tag_at_push(p, cl, off);
            assert(!cl.contains(off));
        }
    }
}

/// The tagged interval map. Its view is the sequence of runs, ordered by
/// start; a well-formed map keeps them disjoint, non-empty, and coalesced.
#[derive(Debug)]
pub struct TaggedRange {
    runs: Vec<Region>,
}

/// An iterator over the runs of a [`TaggedRange`] that intersect a query
/// range, clipped to it. The regions are collected when the iterator is
/// made, so a later `put` does not disturb it.
#[derive(Debug)]
pub struct Iter {
    regions: Vec<Region>,
    index: usize,
}

impl Iter {
    /// The clipped regions this iterator yields, first to last.
    pub closed spec fn regions(self) -> Seq<Region> {
        self.regions@
    }

    /// How many regions have been yielded already.
    pub closed spec fn index(self) -> int {
        self.index as int
    }

    pub closed spec fn wf(self) -> bool {
        self.index <= self.regions@.len()
    }

    pub fn new(regions: Vec<Region>) -> (it: Iter)
        ensures
            it.regions() == regions@,
            it.index() == 0,
            it.wf(),
    {
        Iter { regions, index: 0 }
    }

    /// The next clipped region, in ascending order of start.
    pub fn next(&mut self) -> (r: Option<Region>)
        requires
            old(self).wf(),
        ensures
            final(self).wf(),
            final(self).regions() == old(self).regions(),
            old(self).index() < old(self).regions().len() ==> r == Some(
                old(self).regions()[old(self).index()],
            ) && final(self).index() == old(self).index() + 1,
            old(self).index() >= old(self).regions().len() ==> r is None && final(self).index()
                == old(self).index(),
    {
        if self.index < self.regions.len() {
            let r = self.regions[self.index];
            self.index = self.index + 1;
            Some(r)
        } else {
            None
        }
    }
}

impl TaggedRange {
    /// The view of a map is its sequence of runs.
    pub closed spec fn view(self) -> Seq<Region> {
        self.runs@
    }

    pub open spec fn wf(self) -> bool {
        wf_runs(self@)
    }

    /// The tag recorded for the byte at `off`, `None` where no `put` has
    /// ever covered it.
    pub open spec fn tag_at(self, off: int) -> Option<SectorState> {
        runs_tag_at(self@, off)
    }

    pub fn new() -> (t: TaggedRange)
        ensures
            t@ == Seq::<Region>::empty(),
            t.wf(),
    {
        let t = TaggedRange { runs: Vec::new() };
        proof {
            assert(t@ =~= Seq::<Region>::empty());
        }
        t
    }

    /// Append `r`, coalescing it into the last run when the two touch and
    /// share a tag.
    fn push_run(out: &mut Vec<Region>, r: Region)
        requires
            wf_runs(old(out)@),
            r.wf(),
            old(out)@.len() > 0 ==> old(out)@.last().end() <= r.start,
        ensures
            wf_runs(final(out)@),
            final(out)@.len() > 0,
            final(out)@.last().end() == r.end(),
            forall|off: int|
                r.contains(off) ==> #[trigger] runs_tag_at(final(out)@, off) == Some(r.tag),
            forall|off: int|
                !r.contains(off) ==> #[trigger] runs_tag_at(final(out)@, off) == runs_tag_at(
                    old(out)@,
                    off,
                ),
            (old(out)@.len() == 0 || old(out)@.last().end() < r.start || old(out)@.last().tag
                != r.tag) ==> final(out)@ == old(out)@.push(r),
    {
        let n = out.len();
        let ghost prev = out@;
        let mut do_merge = false;
        if n > 0 {
            let last = out[n - 1];
            proof {
                assert(prev[n - 1].wf());
            }
            if last.start + last.length == r.start && last.tag == r.tag {
                do_merge = true;
            }
        }
        if do_merge {
            let last = out[n - 1];
            proof {
                assert(prev[n - 1].wf());
                assert(prev[n - 1] == prev.last());
            }
            let cur = Region {
                start: last.start,
                length: (r.start - last.start) + r.length,
                tag: r.tag,
            };
            out.pop();
            out.push(cur);
            proof {
                let d = prev.drop_last();
                assert(out@ =~= d.push(cur));
                lemma_ordered_drop_last(prev);
                assert(cur.wf());
                if d.len() > 0 {
                    let m = prev.len() - 2;
                    assert(d.last() == prev[m]);
                    assert(prev[m].end() <= prev[m + 1].start);
                    assert(prev[m].end() == prev[m + 1].start ==> prev[m].tag != prev[m + 1].tag);
                    assert(prev[m + 1] == prev.last());
                    assert(d.last().end() <= cur.start);
                    assert(d.last().end() == cur.start ==> d.last().tag != cur.tag);
                }
                lemma_wf_append(d, cur);
                assert forall|off: int| r.contains(off) implies #[trigger] runs_tag_at(
                    out@,
                    off,
                ) == Some(r.tag) by {
                    lemma_tag_at_push(d, cur, off);
                }
                assert forall|off: int| !r.contains(off) implies #[trigger] runs_tag_at(
                    out@,
                    off,
                ) == runs_tag_at(prev, off) by {
                    lemma_tag_at_push(d, cur, off);
                    assert(prev =~= d.push(prev.last()));
                    lemma_tag_at_push(d, prev.last(), off);
                    if cur.contains(off) {
                        // the part of the merged run below `r` is the old
                        // last run, whose tag `r` shares
                        assert(prev.last().contains(off));
                    }
                }
                assert(out@.last() == cur);
            }
        } else {
            out.push(r);
            proof {
                assert(out@ == prev.push(r));
                if prev.len() > 0 {
                    assert(prev[prev.len() - 1] == prev.last());
                    assert(prev.last().wf());
                }
                lemma_wf_append(prev, r);
                assert forall|off: int| r.contains(off) implies #[trigger] runs_tag_at(
                    out@,
                    off,
                ) == Some(r.tag) by {
                    lemma_tag_at_push(prev, r, off);
                }
                assert forall|off: int| !r.contains(off) implies #[trigger] runs_tag_at(
                    out@,
                    off,
                ) == runs_tag_at(prev, off) by {
                    lemma_tag_at_push(prev, r, off);
                }
                assert(out@.last() == r);
            }
        }
    }

    /// Set every byte in `range` to `tag`; bytes outside keep their tag.
    ///
    /// Runs straddling either endpoint are split, runs inside are dropped,
    /// and the result is coalesced, so no two adjacent touching runs share
    /// a tag. A `put` of a range past every existing run simply appends one
    /// run, which is what rebuilding a map from its file relies on.
    #[verifier::rlimit(80)]
    pub fn put(&mut self, range: Range<u64>, tag: SectorState)
        requires
            old(self).wf(),
            range.start <= range.end,
        ensures
            final(self).wf(),
            forall|off: int|
                range.start <= off < range.end ==> #[trigger] runs_tag_at(final(self)@, off)
                    == Some(tag),
            forall|off: int|
                !(range.start <= off < range.end) ==> #[trigger] runs_tag_at(final(self)@, off)
                    == runs_tag_at(old(self)@, off),
            range.start == range.end ==> final(self)@ == old(self)@,
            (range.start < range.end && (forall|k: int|
                0 <= k < old(self)@.len() ==> (#[trigger] old(self)@[k]).end() <= range.start) && (
            old(self)@.len() > 0 && old(self)@.last().end() == range.start ==> old(
                self,
            )@.last().tag != tag)) ==> final(self)@ == old(self)@.push(
                Region { start: range.start, length: (range.end - range.start) as u64, tag },
            ),
    {
        let lo = range.start;
        let hi = range.end;
        if lo == hi {
            return ;
        }
        let ghost s0 = self@;
        let ghost append_case = (forall|k: int|
            0 <= k < s0.len() ==> (#[trigger] s0[k]).end() <= lo) && (s0.len() > 0
            && s0.last().end() == lo ==> s0.last().tag != tag);
        let n = self.runs.len();
        let mut out: Vec<Region> = Vec::new();
        let mut i: usize = 0;

        // keep the part of each run that lies below `lo`
        while i < n && self.runs[i].start < lo
            invariant
                self@ == s0,
                s0 == old(self)@,
                wf_runs(s0),
                n == s0.len(),
                0 <= i <= n,
                lo < hi,
                lo == range.start,
                hi == range.end,
                forall|k: int| 0 <= k < i ==> (#[trigger] s0[k]).start < lo,
                out@ == left_clips(s0, lo as int, i as int),
            decreases n - i,
        {
            let r = self.runs[i];
            proof {
                assert(s0[i as int].wf());
            }
            let r_end = r.start + r.length;
            let cut = if r_end <= lo {
                r_end
            } else {
                lo
            };
            out.push(Region { start: r.start, length: cut - r.start, tag: r.tag });
            proof {
                lemma_left_clips_push(s0, lo as int, i as int);
                assert(Region { start: r.start, length: (cut - r.start) as u64, tag: r.tag }
                    == clip_left(s0[i as int], lo as int));
            }
            i += 1;
        }
        let ghost i_left = i as int;
        proof {
            lemma_left_clips(s0, lo as int, i_left);
            assert forall|k: int| i_left <= k < s0.len() implies lo <= (#[trigger] s0[k]).start by {
                if k > i_left {
                    lemma_ordered_span(s0, i_left, k);
                    assert(s0[i_left].wf());
                }
            }
            assert forall|off: int| off < lo implies runs_tag_at(s0.take(i_left), off)
                == runs_tag_at(s0, off) by {
                lemma_tag_at_take(s0, i_left, off);
            }
            if out@.len() > 0 {
                assert(out@.last() == left_clips(s0, lo as int, i_left)[i_left - 1]);
                assert(out@.last() == clip_left(s0[i_left - 1], lo as int));
                assert(out@.last().end() <= lo);
            }
        }

        // the rewritten range itself
        let ghost before_new = out@;
        Self::push_run(&mut out, Region { start: lo, length: hi - lo, tag });
        let ghost mut fr: int = hi as int;
        proof {
            assert forall|off: int| off < lo implies #[trigger] runs_tag_at(out@, off)
                == runs_tag_at(s0, off) by {
                assert(runs_tag_at(out@, off) == runs_tag_at(before_new, off));
            }
            assert forall|off: int| off >= hi implies #[trigger] runs_tag_at(out@, off)
                is None by {
                assert(runs_tag_at(out@, off) == runs_tag_at(before_new, off));
            }
            if append_case {
                assert forall|k: int| 0 <= k < s0.len() implies (#[trigger] s0[k]).start
                    < lo by {
                    assert(s0[k].wf());
                    assert(s0[k].end() <= lo);
                }
                assert(i_left == n);
                assert(out@ == before_new.push(
                    Region { start: lo, length: (hi - lo) as u64, tag },
                ));
                assert forall|k: int| 0 <= k < n implies (#[trigger] before_new[k]) == s0[k] by {
                    assert(before_new[k] == clip_left(s0[k], lo as int));
                    assert(s0[k].end() <= lo);
                }
                assert(before_new =~= s0);
            }
        }

        // the part of a run that begins below `lo` but ends past `hi`
        if i > 0 {
            let prev = self.runs[i - 1];
            proof {
                assert(s0[i - 1].wf());
            }
            let prev_end = prev.start + prev.length;
            if prev_end > hi {
                Self::push_run(&mut out, Region { start: hi, length: prev_end - hi, tag: prev.tag });
                proof {
                    fr = prev_end as int;
                    assert forall|off: int| hi <= off < fr implies #[trigger] runs_tag_at(
                        out@,
                        off,
                    ) == runs_tag_at(s0, off) by {
                        assert(s0[i - 1].contains(off));
                        lemma_tag_at_some(s0, i - 1, off);
                    }
                }
            }
        }
        proof {
            assert forall|k: int| 0 <= k < i implies (#[trigger] s0[k]).end() <= fr by {
                if k < i_left - 1 {
                    lemma_ordered_span(s0, k, i_left - 1);
                    assert(s0[i_left - 1].wf());
                }
            }
            if i_left < n {
                if i_left > 0 && fr > hi {
                    // a frontier past `hi` comes from the straddling run,
                    // and every remaining run begins at or after its end
                    let m = i_left - 1;
                    assert(s0[m].end() <= s0[m + 1].start);
                }
            }
        }

        // runs wholly inside the range are dropped
        while i < n
            invariant
                self@ == s0,
                s0 == old(self)@,
                wf_runs(s0),
                n == s0.len(),
                0 <= i <= n,
                lo < hi,
                lo == range.start,
                hi == range.end,
                fr >= hi,
                out@.len() > 0,
                wf_runs(out@),
                out@.last().end() == fr,
                i < n ==> fr <= (if s0[i as int].start < hi {
                    hi as int
                } else {
                    s0[i as int].start as int
                }),
                forall|k: int| 0 <= k < i ==> (#[trigger] s0[k]).end() <= fr,
                forall|off: int|
                    off < lo ==> #[trigger] runs_tag_at(out@, off) == runs_tag_at(s0, off),
                forall|off: int| lo <= off < hi ==> #[trigger] runs_tag_at(out@, off) == Some(tag),
                forall|off: int|
                    hi <= off < fr ==> #[trigger] runs_tag_at(out@, off) == runs_tag_at(s0, off),
                forall|off: int| off >= fr ==> #[trigger] runs_tag_at(out@, off) is None,
                append_case ==> i == n && out@ == s0.push(
                    Region { start: lo, length: (hi - lo) as u64, tag },
                ),
            ensures
                i == n || s0[i as int].end() > hi,
            decreases n - i,
        {
            let r = self.runs[i];
            proof {
                assert(s0[i as int].wf());
            }
            let r_end = r.start + r.length;
            if r_end > hi {
                break ;
            }
            proof {
                if i + 1 < n {
                    assert(s0[i as int].end() <= s0[i as int + 1].start);
                }
            }
            i += 1;
        }

        // a run that straddles `hi` keeps its part above it; whole runs past
        // the range are kept as they are
        while i < n
            invariant
                self@ == s0,
                s0 == old(self)@,
                wf_runs(s0),
                n == s0.len(),
                0 <= i <= n,
                lo < hi,
                lo == range.start,
                hi == range.end,
                fr >= hi,
                out@.len() > 0,
                wf_runs(out@),
                out@.last().end() == fr,
                i < n ==> s0[i as int].end() > hi,
                i < n ==> fr <= (if s0[i as int].start < hi {
                    hi as int
                } else {
                    s0[i as int].start as int
                }),
                forall|k: int| 0 <= k < i ==> (#[trigger] s0[k]).end() <= fr,
                forall|off: int|
                    off < lo ==> #[trigger] runs_tag_at(out@, off) == runs_tag_at(s0, off),
                forall|off: int| lo <= off < hi ==> #[trigger] runs_tag_at(out@, off) == Some(tag),
                forall|off: int|
                    hi <= off < fr ==> #[trigger] runs_tag_at(out@, off) == runs_tag_at(s0, off),
                forall|off: int| off >= fr ==> #[trigger] runs_tag_at(out@, off) is None,
                append_case ==> i == n && out@ == s0.push(
                    Region { start: lo, length: (hi - lo) as u64, tag },
                ),
            decreases n - i,
        {
            let r = self.runs[i];
            proof {
                assert(s0[i as int].wf());
            }
            let r_end = r.start + r.length;
            let ghost before = out@;
            let ghost fr0 = fr;
            let piece = if r.start < hi {
                Region { start: hi, length: r_end - hi, tag: r.tag }
            } else {
                r
            };
            proof {
                assert(piece.wf());
                assert(piece.end() == s0[i as int].end());
                assert(fr <= piece.start);
            }
            Self::push_run(&mut out, piece);
            proof {
                fr = piece.end();
                assert forall|off: int| hi <= off < fr implies #[trigger] runs_tag_at(
                    out@,
                    off,
                ) == runs_tag_at(s0, off) by {
                    if piece.contains(off) {
                        assert(s0[i as int].contains(off));
                        lemma_tag_at_some(s0, i as int, off);
                    } else {
                        assert(runs_tag_at(out@, off) == runs_tag_at(before, off));
                        if off >= fr0 {
                            // a gap between the frontier and this run is
                            // covered by no run at all
                            assert forall|k: int| 0 <= k < n implies !(#[trigger] s0[k]).contains(
                                off,
                            ) by {
                                if k < i {
                                    assert(s0[k].end() <= fr0);
                                } else if k > i {
                                    lemma_ordered_span(s0, i as int, k);
                                }
                            }
                            lemma_tag_at_none(s0, off);
                        }
                    }
                }
                if i + 1 < n {
                    assert(s0[i as int].end() <= s0[i as int + 1].start);
                    assert(s0[i as int + 1].wf());
                }
            }
            i += 1;
        }
        self.runs = out;
        proof {
            assert forall|off: int| !(range.start <= off < range.end) implies #[trigger] runs_tag_at(final(self)@, off) == runs_tag_at(old(self)@, off) by {
                if off >= fr {
                    assert forall|k: int| 0 <= k < n implies !(#[trigger] s0[k]).contains(off) by {
                        assert(s0[k].end() <= fr);
                    }
                    lemma_tag_at_none(s0, off);
                }
            }
        }
    }

    #[verifier::rlimit(80)]
    fn collect_range(&self, lo: u64, hi: u64) -> (rv: Vec<Region>)
        requires
            self.wf(),
            lo <= hi,
        ensures
            wf_runs(rv@),
            rv@ == clipped_regions(self@, lo as int, hi as int),
            forall|k: int|
                0 <= k < rv@.len() ==> lo <= (#[trigger] rv@[k]).start && rv@[k].end() <= hi,
            forall|off: int|
                lo <= off < hi ==> #[trigger] runs_tag_at(rv@, off) == self.tag_at(off),
    {
        let n = self.runs.len();
        let mut rv: Vec<Region> = Vec::new();
        if lo == hi {
            proof {
                lemma_clipped_regions_empty(self@, lo as int, hi as int);
            }
            return rv;
        }
        let mut i: usize = 0;
        let ghost s = self@;
        let ghost mut last_j: int = 0;
        proof {
            assert(s.skip(0) =~= s);
        }
        while i < n
            invariant
                s == self@,
                self.wf(),
                n == s.len(),
                0 <= i <= n,
                lo < hi,
                rv@ + clipped_regions(s.skip(i as int), lo as int, hi as int) == clipped_regions(
                    s,
                    lo as int,
                    hi as int,
                ),
                wf_runs(rv@),
                forall|k: int|
                    0 <= k < rv@.len() ==> lo <= (#[trigger] rv@[k]).start && rv@[k].end() <= hi,
                forall|off: int|
                    lo <= off < hi ==> #[trigger] runs_tag_at(rv@, off) == runs_tag_at(
                        s.take(i as int),
                        off,
                    ),
                rv@.len() > 0 ==> 0 <= last_j < i && s[last_j].start < hi && s[last_j].end() > lo
                    && rv@.last().tag == s[last_j].tag && rv@.last().end() == (if s[last_j].end()
                    <= hi {
                    s[last_j].end()
                } else {
                    hi as int
                }),
                forall|m: int|
                    rv@.len() > 0 && last_j < m < i ==> !((#[trigger] s[m]).start < hi && s[m].end()
                        > lo),
            decreases n - i,
        {
            let r = self.runs[i];
            proof {
                assert(s[i as int].wf());
            }
            let r_end = r.start + r.length;
            let ghost before = rv@;
            if r.start < hi && r_end > lo {
                let c_start = if r.start < lo {
                    lo
                } else {
                    r.start
                };
                let c_end = if r_end <= hi {
                    r_end
                } else {
                    hi
                };
                let c = Region { start: c_start, length: c_end - c_start, tag: r.tag };
                proof {
                    assert(c.wf());
                    if before.len() > 0 {
                        if last_j < i - 1 {
                            lemma_ordered_span(s, last_j, i as int);
                        } else {
                            let m = last_j;
                            assert(s[m].end() <= s[m + 1].start);
                        }
                        assert(before.last().end() <= c.start);
                        if before.last().end() == c.start {
                            // the pair touches only when the source runs are
                            // adjacent and touch, so their tags differ
                            assert(s[last_j].end() == s[i as int].start);
                            if last_j < i - 1 {
                                let m = last_j;
                                assert(s[m].end() <= s[m + 1].start);
                                assert(s[m + 1].wf());
                                if m + 1 < i {
                                    lemma_ordered_span(s, m + 1, i as int);
                                }
                                assert(false);
                            }
                            assert(last_j == i - 1);
                            let m = last_j;
                            assert(s[m].end() == s[m + 1].start ==> s[m].tag != s[m + 1].tag);
                            assert(before.last().tag != c.tag);
                        }
                        lemma_wf_append(before, c);
                    } else {
                        lemma_wf_append(before, c);
                    }
                }
                rv.push(c);
                proof {
                    assert(rv@ == before.push(c));
                    assert(s.skip(i as int)[0] == s[i as int]);
                    assert(s.skip(i as int).drop_first() =~= s.skip(i as int + 1));
                    assert(clip_within(s[i as int], lo as int, hi as int));
                    assert(c == clip_to(s[i as int], lo as int, hi as int));
                    assert(clipped_regions(s.skip(i as int), lo as int, hi as int) == seq![c]
                        + clipped_regions(s.skip(i as int + 1), lo as int, hi as int));
                    assert(rv@ + clipped_regions(s.skip(i as int + 1), lo as int, hi as int)
                        =~= before + clipped_regions(s.skip(i as int), lo as int, hi as int));
                    assert forall|k: int|
                        0 <= k < rv@.len() implies lo <= (#[trigger] rv@[k]).start && rv@[k].end()
                        <= hi by {
                        if k < before.len() {
                            assert(rv@[k] == before[k]);
                        } else {
                            assert(rv@[k] == c);
                        }
                    }
                    assert forall|off: int| lo <= off < hi implies #[trigger] runs_tag_at(
                        rv@,
                        off,
                    ) == runs_tag_at(s.take(i as int + 1), off) by {
                        lemma_tag_at_push(before, c, off);
                        assert(s.take(i as int + 1) =~= s.take(i as int).push(s[i as int]));
                        lemma_tag_at_push(s.take(i as int), s[i as int], off);
                        assert(c.contains(off) == s[i as int].contains(off));
                    }
                    last_j = i as int;
                }
            } else {
                proof {
                    assert(s.skip(i as int)[0] == s[i as int]);
                    assert(s.skip(i as int).drop_first() =~= s.skip(i as int + 1));
                    assert(!clip_within(s[i as int], lo as int, hi as int));
                    assert(clipped_regions(s.skip(i as int), lo as int, hi as int)
                        == clipped_regions(s.skip(i as int + 1), lo as int, hi as int));
                    assert forall|off: int| lo <= off < hi implies #[trigger] runs_tag_at(
                        rv@,
                        off,
                    ) == runs_tag_at(s.take(i as int + 1), off) by {
                        assert(s.take(i as int + 1) =~= s.take(i as int).push(s[i as int]));
                        lemma_tag_at_push(s.take(i as int), s[i as int], off);
                        assert(!s[i as int].contains(off));
                    }
                }
            }
            i += 1;
        }
        proof {
            assert(s.take(n as int) =~= s);
            assert(s.skip(n as int) =~= Seq::<Region>::empty());
            assert(rv@ + clipped_regions(s.skip(n as int), lo as int, hi as int) =~= rv@);
        }
        rv
    }

    /// A copy of the map's runs, in ascending order of start.
    pub fn runs(&self) -> (v: Vec<Region>)
        ensures
            v@ == self@,
    {
        let n = self.runs.len();
        let mut v: Vec<Region> = Vec::new();
        let mut i: usize = 0;
        while i < n
            invariant
                n == self@.len(),
                0 <= i <= n,
                v@ == self@.take(i as int),
            decreases n - i,
        {
            v.push(self.runs[i]);
            proof {
                assert(self@.take(i as int + 1) =~= self@.take(i as int).push(self@[i as int]));
            }
            i += 1;
        }
        proof {
            assert(self@.take(n as int) =~= self@);
        }
        v
    }

    /// The runs intersecting `range`, each clipped to it, in ascending
    /// order of start.
    pub fn iter_range(&self, range: Range<u64>) -> (it: Iter)
        requires
            self.wf(),
            range.start <= range.end,
        ensures
            it.wf(),
            it.index() == 0,
            wf_runs(it.regions()),
            it.regions() == clipped_regions(self@, range.start as int, range.end as int),
            forall|k: int|
                0 <= k < it.regions().len() ==> range.start <= (#[trigger] it.regions()[k]).start
                    && it.regions()[k].end() <= range.end,
            forall|off: int|
                range.start <= off < range.end ==> #[trigger] runs_tag_at(it.regions(), off)
                    == self.tag_at(off),
    {
        let rv = self.collect_range(range.start, range.end);
        Iter::new(rv)
    }

    /// All runs of the map, in ascending order of start.
    pub fn iter(&self) -> (it: Iter)
        requires
            self.wf(),
        ensures
            it.wf(),
            it.index() == 0,
            it.regions() == self@,
    {
        Iter::new(self.runs())
    }
}

} // verus!
