//! The persistent record of a rescue session: a scan position, a phase, a
//! pass counter, and the state of every byte of the source.

use vstd::prelude::*;

use core::ops::Range;

use crate::parse_error::ParseError;
use crate::text::content_lines;
use crate::text::filter_content;
use crate::text::is_content;
use crate::text::lemma_filter_content_push;
use crate::text::lemma_split_lines_step;
use crate::text::lemma_split_lines_whole;
use crate::text::parse_dec_field;
use crate::text::parse_dec_u64_at;
use crate::text::parse_hex_field;
use crate::text::parse_hex_u64_at;
use crate::text::push_dec;
use crate::text::push_hex_field;
use crate::text::skip_spaces;
use crate::text::space_seq;
use crate::text::spec_dec;
use crate::text::spec_hex_field;
use crate::text::span_spaces;
use crate::text::split_lines;
use crate::phase::Phase;
use crate::tagged_range::Iter;
use crate::tagged_range::Region;
use crate::tagged_range::TaggedRange;
use crate::tagged_range::lemma_ordered_span;
use crate::tagged_range::lemma_tag_at_covered;
use crate::tagged_range::lemma_tag_at_some;
use crate::tagged_range::ordered_runs;
use crate::tagged_range::runs_tag_at;
use crate::tagged_range::wf_runs;

verus! {

/// What is known about one byte of the source device. Each state is written
/// to the map file as a single character.
#[derive(Clone, Copy, Debug, PartialEq, Eq, Hash, Structural)]
pub enum SectorState {
    /// Never attempted in this session (`?`).
    Untried,
    /// Inside a large failed block, not yet subdivided (`*`).
    Untrimmed,
    /// Subdivided but still unread at fine granularity (`/`).
    Unscraped,
    /// Confirmed unreadable at the finest attempted granularity (`-`).
    Bad,
    /// Successfully read (`+`).
    Rescued,
}

impl SectorState {
    /// The character that stands for this state in a map file region line.
    pub open spec fn spec_char(self) -> char {
        match self {
            SectorState::Untried => '?',
            SectorState::Untrimmed => '*',
            SectorState::Unscraped => '/',
            SectorState::Bad => '-',
            SectorState::Rescued => '+',
        }
    }

    /// The state a region line character denotes, if any.
    pub open spec fn spec_from_char(c: char) -> Option<SectorState> {
        match c {
            '?' => Some(SectorState::Untried),
            '*' => Some(SectorState::Untrimmed),
            '/' => Some(SectorState::Unscraped),
            '-' => Some(SectorState::Bad),
            '+' => Some(SectorState::Rescued),
            _ => None,
        }
    }

    pub fn from_char(c: char) -> (r: Result<SectorState, ParseError>)
        ensures
            match r {
                Ok(s) => Self::spec_from_char(c) == Some(s),
                Err(e) => Self::spec_from_char(c) is None && e@ == "sector state"@,
            },
    {
        match c {
            '?' => Ok(SectorState::Untried),
            '*' => Ok(SectorState::Untrimmed),
            '/' => Ok(SectorState::Unscraped),
            '-' => Ok(SectorState::Bad),
            '+' => Ok(SectorState::Rescued),
            _ => Err(ParseError::new("sector state")),
        }
    }

    pub fn as_char(&self) -> (c: char)
        ensures
            c == self.spec_char(),
    {
        match self {
            SectorState::Untried => '?',
            SectorState::Untrimmed => '*',
            SectorState::Unscraped => '/',
            SectorState::Bad => '-',
            SectorState::Rescued => '+',
        }
    }

    /// The region line byte for this state, the ASCII code of its
    /// character.
    pub open spec fn spec_byte(self) -> u8 {
        match self {
            SectorState::Untried => 0x3F,
            SectorState::Untrimmed => 0x2A,
            SectorState::Unscraped => 0x2F,
            SectorState::Bad => 0x2D,
            SectorState::Rescued => 0x2B,
        }
    }

    /// The state a region line byte denotes, if any.
    pub open spec fn spec_from_byte(b: u8) -> Option<SectorState> {
        match b {
            0x3F => Some(SectorState::Untried),
            0x2A => Some(SectorState::Untrimmed),
            0x2F => Some(SectorState::Unscraped),
            0x2D => Some(SectorState::Bad),
            0x2B => Some(SectorState::Rescued),
            _ => None,
        }
    }

    pub fn as_byte(&self) -> (b: u8)
        ensures
            b == self.spec_byte(),
    {
        match self {
            SectorState::Untried => 0x3F,
            SectorState::Untrimmed => 0x2A,
            SectorState::Unscraped => 0x2F,
            SectorState::Bad => 0x2D,
            SectorState::Rescued => 0x2B,
        }
    }

    pub fn from_byte(b: u8) -> (r: Option<SectorState>)
        ensures
            r == Self::spec_from_byte(b),
    {
        match b {
            0x3F => Some(SectorState::Untried),
            0x2A => Some(SectorState::Untrimmed),
            0x2F => Some(SectorState::Unscraped),
            0x2D => Some(SectorState::Bad),
            0x2B => Some(SectorState::Rescued),
            _ => None,
        }
    }
}

/// The number of bytes the runs of `s` tag with `t`.
pub open spec fn state_bytes(s: Seq<Region>, t: SectorState) -> int
    decreases s.len(),
{
    if s.len() == 0 {
        0
    } else {
        state_bytes(s.drop_last(), t) + if s.last().tag == t {
            s.last().length as int
        } else {
            0
        }
    }
}

pub proof fn lemma_state_bytes_push(s: Seq<Region>, r: Region, t: SectorState)
    ensures
        state_bytes(s.push(r), t) == state_bytes(s, t) + if r.tag == t {
            r.length as int
        } else {
            0
        },
{
    assert(s.push(r).last() == r);
    assert(s.push(r).drop_last() =~= s);
}

pub proof fn lemma_state_bytes_nonneg(s: Seq<Region>, t: SectorState)
    ensures
        state_bytes(s, t) >= 0,
    decreases s.len(),
{
    if s.len() > 0 {
        lemma_state_bytes_nonneg(s.drop_last(), t);
    }
}

pub proof fn lemma_ordered_take(s: Seq<Region>, i: int)
    requires
        ordered_runs(s),
        0 <= i <= s.len(),
    ensures
        ordered_runs(s.take(i)),
{
    let p = s.take(i);
    assert forall|k: int| 0 <= k < p.len() implies (#[trigger] p[k]).wf() by {
        assert(p[k] == s[k]);
    }
    assert forall|k: int|
        #![trigger p[k], p[k + 1]]
        0 <= k && k + 1 < p.len() implies p[k].end() <= p[k + 1].start by {
        assert(p[k] == s[k] && p[k + 1] == s[k + 1]);
        assert(s[k].end() <= s[k + 1].start);
    }
}

/// Ordered disjoint runs cannot tag more bytes than they span, so every
/// per-state byte total fits below the end of the last run.
pub proof fn lemma_state_bytes_bound(s: Seq<Region>, t: SectorState)
    requires
        ordered_runs(s),
    ensures
        state_bytes(s, t) >= 0,
        s.len() == 0 ==> state_bytes(s, t) == 0,
        s.len() > 0 ==> state_bytes(s, t) <= s.last().end(),
    decreases s.len(),
{
    lemma_state_bytes_nonneg(s, t);
    if s.len() > 0 {
        crate::tagged_range::lemma_ordered_drop_last(s);
        lemma_state_bytes_bound(s.drop_last(), t);
        if s.len() >= 2 {
            let m = s.len() - 2;
            assert(s.drop_last().last() == s[m]);
            assert(s[m].end() <= s[m + 1].start);
            assert(s[m + 1] == s.last());
        }
        assert(s.last().wf());
    }
}

/// A state's byte total is positive exactly when some byte carries it.
pub proof fn lemma_state_bytes_positive(s: Seq<Region>, t: SectorState)
    requires
        ordered_runs(s),
    ensures
        state_bytes(s, t) > 0 <==> exists|off: int| #[trigger] runs_tag_at(s, off) == Some(t),
    decreases s.len(),
{
    lemma_state_bytes_nonneg(s, t);
    if s.len() == 0 {
        if exists|off: int| #[trigger] runs_tag_at(s, off) == Some(t) {
            let off = choose|off: int| #[trigger] runs_tag_at(s, off) == Some(t);
            assert(runs_tag_at(s, off) is None);
        }
    } else {
        crate::tagged_range::lemma_ordered_drop_last(s);
        lemma_state_bytes_positive(s.drop_last(), t);
        lemma_state_bytes_nonneg(s.drop_last(), t);
        assert(s[s.len() - 1] == s.last());
        assert(s.last().wf());
        if state_bytes(s, t) > 0 {
            if s.last().tag == t {
                let off = s.last().start as int;
                assert(s[s.len() - 1].contains(off));
                lemma_tag_at_some(s, s.len() - 1, off);
                assert(runs_tag_at(s, off) == Some(t));
            } else {
                // the total lies entirely in the earlier runs
                assert(state_bytes(s.drop_last(), t) > 0);
                let off = choose|off: int| #[trigger] runs_tag_at(s.drop_last(), off) == Some(t);
                lemma_tag_at_covered(s.drop_last(), off);
                let k = choose|k: int|
                    0 <= k < s.drop_last().len() && (#[trigger] s.drop_last()[k]).contains(off)
                        && runs_tag_at(s.drop_last(), off) == Some(s.drop_last()[k].tag);
                assert(s.drop_last()[k] == s[k]);
                lemma_ordered_span(s, k, s.len() - 1);
                assert(!s.last().contains(off));
                assert(runs_tag_at(s, off) == Some(t));
            }
        }
        if exists|off: int| #[trigger] runs_tag_at(s, off) == Some(t) {
            let off = choose|off: int| #[trigger] runs_tag_at(s, off) == Some(t);
            if s.last().contains(off) {
                assert(s.last().tag == t);
                assert(state_bytes(s, t) >= s.last().length);
            } else {
                assert(runs_tag_at(s.drop_last(), off) == Some(t));
                assert(state_bytes(s.drop_last(), t) > 0);
            }
        }
    }
}

/// Byte totals per sector state, as recomputed from the map's runs.
#[derive(Clone, Copy, Debug, PartialEq, Eq, Structural)]
pub struct Histogram {
    pub untried: u64,
    pub untrimmed: u64,
    pub unscraped: u64,
    pub bad: u64,
    pub rescued: u64,
}

impl Histogram {
    /// The byte total recorded for `state`.
    pub open spec fn spec_get(self, state: SectorState) -> u64 {
        match state {
            SectorState::Untried => self.untried,
            SectorState::Untrimmed => self.untrimmed,
            SectorState::Unscraped => self.unscraped,
            SectorState::Bad => self.bad,
            SectorState::Rescued => self.rescued,
        }
    }

    /// Whether the histogram records the byte totals of `runs`.
    pub open spec fn matches(self, runs: Seq<Region>) -> bool {
        forall|t: SectorState| #[trigger] self.spec_get(t) == state_bytes(runs, t)
    }

    pub fn get(&self, state: SectorState) -> (n: u64)
        ensures
            n == self.spec_get(state),
    {
        match state {
            SectorState::Untried => self.untried,
            SectorState::Untrimmed => self.untrimmed,
            SectorState::Unscraped => self.unscraped,
            SectorState::Bad => self.bad,
            SectorState::Rescued => self.rescued,
        }
    }
}

/// The mathematical content of a map file: a scan position, a phase, a pass
/// counter, the device size, and the tagged runs.
pub ghost struct MapModel {
    pub pos: u64,
    pub phase: Phase,
    pub pass: u64,
    pub size_bytes: u64,
    pub runs: Seq<Region>,
}

/// The persistent record of a rescue session.
#[derive(Debug)]
pub struct MapFile {
    pos: u64,
    status: Phase,
    pass: usize,
    size_bytes: u64,
    sector_states: TaggedRange,
}

impl MapFile {
    pub closed spec fn view(self) -> MapModel {
        MapModel {
            pos: self.pos,
            phase: self.status,
            pass: self.pass as u64,
            size_bytes: self.size_bytes,
            runs: self.sector_states@,
        }
    }

    /// The tag of the byte at `off`, `None` outside the device.
    pub open spec fn tag_at(self, off: int) -> Option<SectorState> {
        runs_tag_at(self@.runs, off)
    }

    /// A well-formed map keeps ordered, disjoint, coalesced runs, and tags
    /// no byte outside the device. A map fresh from [`MapFile::new`] also
    /// tags every byte inside it; a loaded one records whatever its file
    /// said.
    pub open spec fn wf(self) -> bool {
        &&& wf_runs(self@.runs)
        &&& forall|off: int|
            !(0 <= off < self@.size_bytes) ==> (#[trigger] runs_tag_at(self@.runs, off)) is None
    }

    /// A fresh map: everything untried, position zero, first pass of the
    /// first phase.
    pub fn new(size_bytes: u64) -> (m: MapFile)
        ensures
            m.wf(),
            m@.pos == 0,
            m@.phase == Phase::Copying,
            m@.pass == 1,
            m@.size_bytes == size_bytes,
            forall|off: int|
                0 <= off < size_bytes ==> (#[trigger] runs_tag_at(m@.runs, off)) == Some(
                    SectorState::Untried,
                ),
            m@.runs == if size_bytes == 0 {
                Seq::<Region>::empty()
            } else {
                seq![Region { start: 0, length: size_bytes, tag: SectorState::Untried }]
            },
    {
        let mut sector_states = TaggedRange::new();
        sector_states.put(0..size_bytes, SectorState::Untried);
        proof {
            if size_bytes > 0 {
                assert(sector_states@ == Seq::<Region>::empty().push(
                    Region { start: 0, length: size_bytes, tag: SectorState::Untried },
                ));
                assert(sector_states@ =~= seq![
                    Region { start: 0, length: size_bytes, tag: SectorState::Untried },
                ]);
            }
        }
        MapFile { pos: 0, status: Phase::Copying, size_bytes, sector_states, pass: 1 }
    }

    /// Retag `range`; every other byte keeps its tag.
    pub fn put(&mut self, range: Range<u64>, state: SectorState)
        requires
            old(self).wf(),
            range.start <= range.end,
            range.end <= old(self)@.size_bytes,
        ensures
            final(self).wf(),
            final(self)@.pos == old(self)@.pos,
            final(self)@.phase == old(self)@.phase,
            final(self)@.pass == old(self)@.pass,
            final(self)@.size_bytes == old(self)@.size_bytes,
            forall|off: int|
                range.start <= off < range.end ==> #[trigger] runs_tag_at(final(self)@.runs, off)
                    == Some(state),
            forall|off: int|
                !(range.start <= off < range.end) ==> #[trigger] runs_tag_at(
                    final(self)@.runs,
                    off,
                ) == runs_tag_at(old(self)@.runs, off),
    {
        self.sector_states.put(range, state);
    }

    /// The runs intersecting `range`, each clipped to it.
    pub fn iter_range(&self, range: Range<u64>) -> (it: Iter)
        requires
            self.wf(),
            range.start <= range.end,
        ensures
            it.wf(),
            it.index() == 0,
            wf_runs(it.regions()),
            it.regions() == crate::tagged_range::clipped_regions(
                self@.runs,
                range.start as int,
                range.end as int,
            ),
            forall|k: int|
                0 <= k < it.regions().len() ==> range.start <= (#[trigger] it.regions()[k]).start
                    && it.regions()[k].end() <= range.end,
            forall|off: int|
                range.start <= off < range.end ==> #[trigger] runs_tag_at(it.regions(), off)
                    == self.tag_at(off),
    {
        self.sector_states.iter_range(range)
    }

    /// All runs of the map, in ascending order of start.
    pub fn iter(&self) -> (it: Iter)
        requires
            self.wf(),
        ensures
            it.wf(),
            it.index() == 0,
            it.regions() == self@.runs,
    {
        Iter::new(self.runs_vec())
    }

    fn runs_vec(&self) -> (v: Vec<Region>)
        ensures
            v@ == self@.runs,
    {
        let it = self.sector_states.runs();
        it
    }

    pub fn get_pos(&self) -> (pos: u64)
        ensures
            pos == self@.pos,
    {
        self.pos
    }

    pub fn set_pos(&mut self, pos: u64)
        ensures
            final(self)@ == (MapModel { pos, ..old(self)@ }),
            final(self).wf() == old(self).wf(),
    {
        self.pos = pos;
    }

    pub fn get_phase(&self) -> (phase: Phase)
        ensures
            phase == self@.phase,
    {
        self.status
    }

    pub fn set_phase(&mut self, phase: &Phase)
        ensures
            final(self)@ == (MapModel { phase: *phase, ..old(self)@ }),
            final(self).wf() == old(self).wf(),
    {
        self.status = *phase;
    }

    pub fn get_pass(&self) -> (pass: usize)
        ensures
            pass == self@.pass,
    {
        self.pass
    }

    pub fn set_pass(&mut self, pass: usize)
        ensures
            final(self)@ == (MapModel { pass: pass as u64, ..old(self)@ }),
            final(self).wf() == old(self).wf(),
    {
        self.pass = pass;
    }

    pub fn next_pass(&mut self)
        requires
            old(self)@.pass < usize::MAX,
        ensures
            final(self)@ == (MapModel { pass: (old(self)@.pass + 1) as u64, ..old(self)@ }),
            final(self).wf() == old(self).wf(),
    {
        self.pass = self.pass + 1;
    }

    pub fn get_size_bytes(&self) -> (n: u64)
        ensures
            n == self@.size_bytes,
    {
        self.size_bytes
    }

    pub fn get_size(&self) -> (n: u64)
        ensures
            n == self@.size_bytes,
    {
        self.size_bytes
    }

    /// Recompute the per-state byte totals from the runs.
    pub fn get_histogram(&self) -> (h: Histogram)
        requires
            self.wf(),
        ensures
            h.matches(self@.runs),
    {
        let runs = self.runs_vec();
        let n = runs.len();
        let ghost s = self@.runs;
        let mut h = Histogram { untried: 0, untrimmed: 0, unscraped: 0, bad: 0, rescued: 0 };
        let mut i: usize = 0;
        while i < n
            invariant
                s == self@.runs,
                runs@ == s,
                wf_runs(s),
                n == s.len(),
                0 <= i <= n,
                h.untried == state_bytes(s.take(i as int), SectorState::Untried),
                h.untrimmed == state_bytes(s.take(i as int), SectorState::Untrimmed),
                h.unscraped == state_bytes(s.take(i as int), SectorState::Unscraped),
                h.bad == state_bytes(s.take(i as int), SectorState::Bad),
                h.rescued == state_bytes(s.take(i as int), SectorState::Rescued),
            decreases n - i,
        {
            let r = runs[i];
            proof {
                assert(s[i as int].wf());
                lemma_ordered_take(s, i as int + 1);
                assert(s.take(i as int + 1) =~= s.take(i as int).push(s[i as int]));
                assert forall|t: SectorState| #[trigger] state_bytes(s.take(i as int + 1), t)
                    == state_bytes(s.take(i as int), t) + (if s[i as int].tag == t {
                    s[i as int].length as int
                } else {
                    0
                }) by {
                    lemma_state_bytes_push(s.take(i as int), s[i as int], t);
                }
                // the growing totals stay below the end of the last run seen
                assert(state_bytes(s.take(i as int + 1), r.tag) <= u64::MAX) by {
                    lemma_state_bytes_bound(s.take(i as int + 1), r.tag);
                    assert(s.take(i as int + 1).last() == s[i as int]);
                }
                assert(state_bytes(s.take(i as int), r.tag) >= 0) by {
                    lemma_state_bytes_nonneg(s.take(i as int), r.tag);
                }
            }
            match r.tag {
                SectorState::Untried => {
                    h.untried = h.untried + r.length;
                },
                SectorState::Untrimmed => {
                    h.untrimmed = h.untrimmed + r.length;
                },
                SectorState::Unscraped => {
                    h.unscraped = h.unscraped + r.length;
                },
                SectorState::Bad => {
                    h.bad = h.bad + r.length;
                },
                SectorState::Rescued => {
                    h.rescued = h.rescued + r.length;
                },
            }
            i += 1;
        }
        proof {
            assert(s.take(n as int) =~= s);
            assert forall|t: SectorState| #[trigger] h.spec_get(t) == state_bytes(s, t) by {
                match t {
                    SectorState::Untried => {},
                    SectorState::Untrimmed => {},
                    SectorState::Unscraped => {},
                    SectorState::Bad => {},
                    SectorState::Rescued => {},
                }
            }
        }
        h
    }

    /// The map rendered in its file format.
    pub fn to_bytes(&self) -> (out: Vec<u8>)
        ensures
            out@ == render_spec(self@),
    {
        let mut out: Vec<u8> = Vec::new();
        let ghost m = self@;
        push_hex_field(self.pos, &mut out);
        Self::push_spaces(&mut out, 5);
        out.push(self.status.as_byte());
        Self::push_spaces(&mut out, 5);
        push_dec(self.pass as u64, &mut out);
        out.push(10);
        proof {
            assert(out@ =~= status_line_spec(m.pos, m.phase, m.pass) + seq![10u8]);
            assert(m.runs.skip(0) =~= m.runs);
        }
        let runs = self.runs_vec();
        let n = runs.len();
        let mut i: usize = 0;
        while i < n
            invariant
                runs@ == m.runs,
                n == m.runs.len(),
                0 <= i <= n,
                out@ + render_lines_spec(m.runs.skip(i as int)) == render_spec(m),
            decreases n - i,
        {
            let ghost before = out@;
            let r = runs[i];
            push_hex_field(r.start, &mut out);
            Self::push_spaces(&mut out, 2);
            push_hex_field(r.length, &mut out);
            Self::push_spaces(&mut out, 2);
            out.push(r.tag.as_byte());
            out.push(10);
            proof {
                assert(m.runs.skip(i as int).drop_first() =~= m.runs.skip(i as int + 1));
                assert(m.runs.skip(i as int)[0] == m.runs[i as int]);
                assert(render_lines_spec(m.runs.skip(i as int)) == region_line_spec(
                    m.runs[i as int],
                ) + seq![10u8] + render_lines_spec(m.runs.skip(i as int + 1)));
                assert(out@ =~= before + region_line_spec(m.runs[i as int]) + seq![10u8]);
                assert(out@ + render_lines_spec(m.runs.skip(i as int + 1)) =~= before
                    + render_lines_spec(m.runs.skip(i as int)));
            }
            i += 1;
        }
        proof {
            assert(m.runs.skip(n as int) =~= Seq::<Region>::empty());
            assert(out@ + render_lines_spec(m.runs.skip(n as int)) =~= out@);
        }
        out
    }

    /// Load a map from its file format. On a malformed line the error
    /// names the construct that failed, and nothing is loaded.
    pub fn from_bytes(data: &[u8]) -> (r: Result<MapFile, ParseError>)
        ensures
            match r {
                Ok(m) => parse_map_spec(data@) is Ok && ({
                    let raw = parse_map_spec(data@)->Ok_0;
                    &&& m.wf()
                    &&& m@.pos == raw.pos
                    &&& m@.phase == raw.phase
                    &&& m@.pass == raw.pass
                    &&& m@.size_bytes == raw.size_bytes
                    &&& forall|off: int|
                        #[trigger] runs_tag_at(m@.runs, off) == runs_tag_at(raw.regions, off)
                    &&& (wf_runs(raw.regions) ==> m@.runs == raw.regions)
                }),
                Err(e) => parse_map_spec(data@) == Err::<RawMap, Seq<char>>(e@),
            },
    {
        let lines = split_into_lines(data);
        let content = content_of(&lines);
        let ghost ls = content_lines(data@);
        proof {
            assert(content.deep_view() == ls);
        }
        let n = content.len();
        if n == 0 {
            return Err(ParseError::new("status line"));
        }
        proof {
            assert(content.deep_view()[0] == content@[0]@);
        }
        let first = &content[0];
        let (pos, phase, pass) = match parse_status_line(first.as_slice()) {
            Ok(t) => t,
            Err(e) => {
                proof {
                    assert(content.deep_view().len() == content@.len());
                    assert(ls[0] == content@[0]@);
                }
                return Err(e);
            },
        };
        let ghost tail = ls.subrange(1, ls.len() as int);
        let mut tr = TaggedRange::new();
        let mut size: u64 = 0;
        let mut i: usize = 1;
        proof {
            assert(ls.subrange(1, 1) =~= Seq::<Seq<u8>>::empty());
            assert(parse_regions_spec(ls.subrange(1, 1)) == Ok::<Seq<Region>, Seq<char>>(
                Seq::empty(),
            ));
        }
        while i < n
            invariant
                1 <= i <= n,
                n == content@.len(),
                n == content.deep_view().len(),
                content.deep_view() == ls,
                ls == content_lines(data@),
                parse_status_spec(ls[0]) == Ok::<(u64, Phase, u64), Seq<char>>(
                    (pos, phase, pass as u64),
                ),
                tr.wf(),
                parse_regions_spec(ls.subrange(1, i as int)) is Ok,
                size == regions_size(parse_regions_spec(ls.subrange(1, i as int))->Ok_0),
                forall|off: int|
                    #[trigger] runs_tag_at(tr@, off) == runs_tag_at(
                        parse_regions_spec(ls.subrange(1, i as int))->Ok_0,
                        off,
                    ),
                (parse_regions_spec(tail) is Ok && wf_runs(parse_regions_spec(tail)->Ok_0))
                    ==> tr@ == parse_regions_spec(ls.subrange(1, i as int))->Ok_0,
                tail == ls.subrange(1, ls.len() as int),
            decreases n - i,
        {
            let ghost rs = parse_regions_spec(ls.subrange(1, i as int))->Ok_0;
            proof {
                assert(content.deep_view()[i as int] == content@[i as int]@);
                assert(ls.subrange(1, i as int + 1).drop_last() =~= ls.subrange(1, i as int));
                assert(ls.subrange(1, i as int + 1).last() == ls[i as int]);
            }
            let line = &content[i];
            let reg = match parse_region_line(line.as_slice()) {
                Ok(rg) => rg,
                Err(e) => {
                    proof {
                        assert(parse_regions_spec(ls.subrange(1, i as int + 1)) == Err::<
                            Seq<Region>,
                            Seq<char>,
                        >(e@));
                        assert(ls.subrange(1, ls.len() as int).take(i as int) =~= ls.subrange(
                            1,
                            i as int + 1,
                        ));
                        lemma_parse_regions_prefix_err(
                            ls.subrange(1, ls.len() as int),
                            i as int,
                            e@,
                        );
                    }
                    return Err(e);
                },
            };
            let ghost tr_old = tr@;
            tr.put(reg.start..(reg.start + reg.length), reg.tag);
            if reg.start + reg.length > size {
                size = reg.start + reg.length;
            }
            proof {
                assert(parse_regions_spec(ls.subrange(1, i as int + 1)) == Ok::<
                    Seq<Region>,
                    Seq<char>,
                >(rs.push(reg)));
                lemma_regions_size_push(rs, reg);
                assert forall|off: int| #[trigger] runs_tag_at(tr@, off) == runs_tag_at(
                    rs.push(reg),
                    off,
                ) by {
                    crate::tagged_range::lemma_tag_at_push(rs, reg, off);
                }
                if parse_regions_spec(tail) is Ok && wf_runs(parse_regions_spec(tail)->Ok_0) {
                    // the file's regions are already ordered, disjoint and
                    // coalesced, so this put appends the next one exactly
                    let all = parse_regions_spec(tail)->Ok_0;
                    lemma_parse_regions_prefix_ok(tail, i as int - 1, all);
                    lemma_parse_regions_prefix_ok(tail, i as int, all);
                    assert(tail.take(i as int - 1) =~= ls.subrange(1, i as int));
                    assert(tail.take(i as int) =~= ls.subrange(1, i as int + 1));
                    assert(rs == all.take(i as int - 1));
                    assert(rs.push(reg) == all.take(i as int));
                    assert(reg == all[i as int - 1]) by {
                        assert(all.take(i as int)[i as int - 1] == all[i as int - 1]);
                        assert(rs.push(reg)[i as int - 1] == reg);
                    }
                    assert(tr_old == rs);
                    assert(all[i as int - 1].wf());
                    assert forall|k: int|
                        0 <= k < rs.len() implies (#[trigger] rs[k]).end() <= reg.start by {
                        assert(rs[k] == all.take(i as int - 1)[k]);
                        assert(rs[k] == all[k]);
                        if k + 1 < i as int - 1 {
                            lemma_ordered_span(all, k, i as int - 1);
                        } else {
                            assert(all[k].end() <= all[k + 1].start);
                        }
                    }
                    if rs.len() > 0 && rs.last().end() == reg.start {
                        let m2 = i as int - 2;
                        assert(rs.last() == all[m2]);
                        assert(all[m2].end() == all[m2 + 1].start ==> all[m2].tag != all[m2
                            + 1].tag);
                    }
                    assert(tr@ == tr_old.push(
                        Region {
                            start: reg.start,
                            length: ((reg.start + reg.length) - reg.start) as u64,
                            tag: reg.tag,
                        },
                    ));
                    assert(tr@ == rs.push(reg));
                }
            }
            i += 1;
        }
        proof {
            assert(ls.subrange(1, i as int) =~= ls.subrange(1, ls.len() as int));
        }
        let ghost raw_regions = parse_regions_spec(ls.subrange(1, ls.len() as int))->Ok_0;
        let m = MapFile { pos, status: phase, pass, size_bytes: size, sector_states: tr };
        proof {
            assert forall|off: int|
                !(0 <= off < m@.size_bytes) implies (#[trigger] runs_tag_at(m@.runs, off))
                is None by {
                if runs_tag_at(raw_regions, off) is Some {
                    lemma_tag_at_covered(raw_regions, off);
                    let k = choose|k: int|
                        0 <= k < raw_regions.len() && (#[trigger] raw_regions[k]).contains(off)
                            && runs_tag_at(raw_regions, off) == Some(raw_regions[k].tag);
                    lemma_regions_size_bound(raw_regions, k);
                }
            }
        }
        Ok(m)
    }

    fn push_spaces(out: &mut Vec<u8>, n: usize)
        ensures
            final(out)@ == old(out)@ + space_seq(n as int),
    {
        let ghost prefix = out@;
        let mut i: usize = 0;
        while i < n
            invariant
                0 <= i <= n,
                out@ == prefix + space_seq(i as int),
            decreases n - i,
        {
            out.push(0x20);
            proof {
                assert(space_seq(i as int + 1) =~= space_seq(i as int).push(0x20u8));
                assert(out@ =~= prefix + space_seq(i as int + 1));
            }
            i += 1;
        }
        proof {
            assert(space_seq(0) =~= Seq::<u8>::empty());
            assert(prefix + space_seq(0) =~= prefix);
        }
    }
}

/// The status line of a map file, without its newline: the scan position,
/// the phase character, and the pass counter, separated by five spaces.
pub open spec fn status_line_spec(pos: u64, phase: Phase, pass: u64) -> Seq<u8> {
    spec_hex_field(pos as int) + space_seq(5) + seq![phase.spec_byte()] + space_seq(5) + spec_dec(
        pass as int,
    )
}

/// One region line of a map file, without its newline: start, length, and
/// state character, separated by two spaces.
pub open spec fn region_line_spec(r: Region) -> Seq<u8> {
    spec_hex_field(r.start as int) + space_seq(2) + spec_hex_field(r.length as int) + space_seq(2)
        + seq![r.tag.spec_byte()]
}

/// The region lines of a map file, one per run, each ended by a newline.
pub open spec fn render_lines_spec(runs: Seq<Region>) -> Seq<u8>
    decreases runs.len(),
{
    if runs.len() == 0 {
        Seq::empty()
    } else {
        region_line_spec(runs[0]) + seq![10u8] + render_lines_spec(runs.drop_first())
    }
}

/// A whole map file: the status line, then one region line per run.
pub open spec fn render_spec(m: MapModel) -> Seq<u8> {
    status_line_spec(m.pos, m.phase, m.pass) + seq![10u8] + render_lines_spec(m.runs)
}

/// What a map file text denotes before the regions are folded into a map:
/// the status fields and the region lines in file order.
pub ghost struct RawMap {
    pub pos: u64,
    pub phase: Phase,
    pub pass: u64,
    pub regions: Seq<Region>,
    pub size_bytes: int,
}

/// The device size a list of region lines implies: the largest end.
pub open spec fn regions_size(rs: Seq<Region>) -> int
    decreases rs.len(),
{
    if rs.len() == 0 {
        0
    } else if regions_size(rs.drop_last()) >= rs.last().end() {
        regions_size(rs.drop_last())
    } else {
        rs.last().end()
    }
}

pub proof fn lemma_regions_size_push(rs: Seq<Region>, r: Region)
    ensures
        regions_size(rs.push(r)) == if regions_size(rs) >= r.end() {
            regions_size(rs)
        } else {
            r.end()
        },
{
    assert(rs.push(r).last() == r);
    assert(rs.push(r).drop_last() =~= rs);
}

pub proof fn lemma_regions_size_bound(rs: Seq<Region>, k: int)
    requires
        0 <= k < rs.len(),
    ensures
        regions_size(rs) >= rs[k].end(),
        regions_size(rs) >= 0,
    decreases rs.len(),
{
    if rs.len() > 0 {
        if k < rs.len() - 1 {
            assert(rs.drop_last()[k] == rs[k]);
            lemma_regions_size_bound(rs.drop_last(), k);
        } else {
            lemma_regions_size_nonneg(rs.drop_last());
        }
    }
}

pub proof fn lemma_regions_size_nonneg(rs: Seq<Region>)
    ensures
        regions_size(rs) >= 0,
    decreases rs.len(),
{
    if rs.len() > 0 {
        lemma_regions_size_nonneg(rs.drop_last());
    }
}

/// What a status line denotes: position, phase, and pass, or the name of
/// the construct that fails. A line that ends after the phase character is
/// the old status form without a pass counter, read as pass one.
pub open spec fn parse_status_spec(line: Seq<u8>) -> Result<(u64, Phase, u64), Seq<char>> {
    match parse_hex_u64_at(line, 0) {
        Err(e) => Err(e),
        Ok((pos, i)) => {
            let j = span_spaces(line, i);
            if j == i || j >= line.len() {
                Err("phase"@)
            } else {
                match Phase::spec_from_byte(line[j]) {
                    None => Err("phase"@),
                    Some(ph) => {
                        let k = span_spaces(line, j + 1);
                        if k >= line.len() {
                            Ok((pos, ph, 1u64))
                        } else if k == j + 1 {
                            Err("pass"@)
                        } else {
                            match parse_dec_u64_at(line, k) {
                                Err(e) => Err(e),
                                Ok((pass, _end)) => if pass > usize::MAX as u64 {
                                    Err("pass"@)
                                } else {
                                    Ok((pos, ph, pass))
                                },
                            }
                        }
                    },
                }
            }
        },
    }
}

/// What a region line denotes: a start, a length, and a sector state, or
/// the name of the construct that fails.
pub open spec fn parse_region_spec(line: Seq<u8>) -> Result<Region, Seq<char>> {
    match parse_hex_u64_at(line, 0) {
        Err(e) => Err(e),
        Ok((start, i)) => {
            let j = span_spaces(line, i);
            if j == i {
                Err("hex value"@)
            } else {
                match parse_hex_u64_at(line, j) {
                    Err(e) => Err(e),
                    Ok((length, k)) => if start + length > u64::MAX {
                        Err("region end"@)
                    } else {
                        let w = span_spaces(line, k);
                        if w == k || w >= line.len() {
                            Err("sector state"@)
                        } else {
                            match SectorState::spec_from_byte(line[w]) {
                                None => Err("sector state"@),
                                Some(st) => Ok(Region { start, length, tag: st }),
                            }
                        }
                    },
                }
            }
        },
    }
}

/// What a list of region lines denotes, stopping at the first bad line.
pub open spec fn parse_regions_spec(lines: Seq<Seq<u8>>) -> Result<Seq<Region>, Seq<char>>
    decreases lines.len(),
{
    if lines.len() == 0 {
        Ok(Seq::empty())
    } else {
        match parse_regions_spec(lines.drop_last()) {
            Err(e) => Err(e),
            Ok(rs) => match parse_region_spec(lines.last()) {
                Err(e) => Err(e),
                Ok(r) => Ok(rs.push(r)),
            },
        }
    }
}

/// When every region line is good, a prefix of lines yields the matching
/// prefix of regions.
pub proof fn lemma_parse_regions_prefix_ok(lines: Seq<Seq<u8>>, k: int, rs: Seq<Region>)
    requires
        0 <= k <= lines.len(),
        parse_regions_spec(lines) == Ok::<Seq<Region>, Seq<char>>(rs),
    ensures
        rs.len() == lines.len(),
        parse_regions_spec(lines.take(k)) == Ok::<Seq<Region>, Seq<char>>(rs.take(k)),
    decreases lines.len(),
{
    if lines.len() == 0 {
        assert(lines.take(k) =~= lines);
        assert(rs.take(k) =~= rs);
    } else {
        let prev = match parse_regions_spec(lines.drop_last()) {
            Ok(p) => p,
            Err(_) => Seq::empty(),
        };
        assert(parse_regions_spec(lines.drop_last()) == Ok::<Seq<Region>, Seq<char>>(prev));
        let last = match parse_region_spec(lines.last()) {
            Ok(r) => r,
            Err(_) => Region { start: 0, length: 0, tag: SectorState::Untried },
        };
        assert(rs == prev.push(last));
        if k == lines.len() {
            lemma_parse_regions_prefix_ok(lines.drop_last(), k - 1, prev);
            assert(lines.take(k) =~= lines);
            assert(rs.take(k) =~= rs);
        } else {
            lemma_parse_regions_prefix_ok(lines.drop_last(), k, prev);
            assert(lines.drop_last().take(k) =~= lines.take(k));
            assert(rs.take(k) =~= prev.take(k));
        }
    }
}

/// An error in an early region line decides the whole list.
pub proof fn lemma_parse_regions_prefix_err(lines: Seq<Seq<u8>>, k: int, e: Seq<char>)
    requires
        0 <= k <= lines.len(),
        parse_regions_spec(lines.take(k)) == Err::<Seq<Region>, Seq<char>>(e),
    ensures
        parse_regions_spec(lines) == Err::<Seq<Region>, Seq<char>>(e),
    decreases lines.len() - k,
{
    if k == lines.len() {
        assert(lines.take(k) =~= lines);
    } else {
        assert(lines.take(k + 1).drop_last() =~= lines.take(k));
        lemma_parse_regions_prefix_err(lines, k + 1, e);
    }
}

/// What a whole map file text denotes.
pub open spec fn parse_map_spec(s: Seq<u8>) -> Result<RawMap, Seq<char>> {
    let ls = content_lines(s);
    if ls.len() == 0 {
        Err("status line"@)
    } else {
        match parse_status_spec(ls[0]) {
            Err(e) => Err(e),
            Ok((pos, ph, pass)) => match parse_regions_spec(ls.subrange(1, ls.len() as int)) {
                Err(e) => Err(e),
                Ok(rs) => Ok(
                    RawMap {
                        pos,
                        phase: ph,
                        pass,
                        regions: rs,
                        size_bytes: regions_size(rs),
                    },
                ),
            },
        }
    }
}

/// A rendered hex field parses back to its value and ends where it ends.
proof fn lemma_parse_hex_field(s: Seq<u8>, i: int, v: u64)
    requires
        0 <= i,
        i + spec_hex_field(v as int).len() <= s.len(),
        s.subrange(i, i + spec_hex_field(v as int).len() as int) == spec_hex_field(v as int),
        i + spec_hex_field(v as int).len() == s.len() || !crate::text::is_hex_digit(
            s[i + spec_hex_field(v as int).len()],
        ),
    ensures
        parse_hex_u64_at(s, i) == Ok::<(u64, int), Seq<char>>(
            (v, i + spec_hex_field(v as int).len()),
        ),
{
    let f = spec_hex_field(v as int);
    let d = crate::text::spec_hex(v as int);
    let pad = crate::text::spec_hex_pad(v as int);
    crate::text::lemma_spec_hex_digits(v as int);
    assert forall|k: int| 0 <= k < f.len() implies s[i + k] == f[k] by {
        assert(s.subrange(i, i + f.len() as int)[k] == s[i + k]);
    }
    assert(f[0] == 0x30 && f[1] == 0x78);
    assert forall|k: int| 2 <= k < f.len() implies crate::text::is_hex_digit(#[trigger] f[k]) by {
        if k < 2 + pad.len() {
            assert(f[k] == pad[k - 2]);
            assert(pad[k - 2] == 0x30);
        } else {
            assert(f[k] == d[k - 2 - pad.len()]);
        }
    }
    assert forall|k: int| i + 2 <= k < i + f.len() implies crate::text::is_hex_digit(
        #[trigger] s[k],
    ) by {
        assert(s[k] == f[k - i]);
    }
    crate::text::lemma_span_hex_is(s, i + 2, i + f.len());
    assert forall|k: int|
        0 <= k < pad.len() + d.len() implies #[trigger] s.subrange(i + 2, i + f.len() as int)[k]
        == (pad + d)[k] by {
        assert(s.subrange(i + 2, i + f.len() as int)[k] == s[i + 2 + k]);
        assert(s[i + 2 + k] == f[2 + k]);
        assert(f[2 + k] == (pad + d)[k]);
    }
    assert(s.subrange(i + 2, i + f.len() as int) =~= pad + d);
    assert(pad + d =~= crate::text::zero_seq(pad.len() as int) + d);
    crate::text::lemma_hex_value_zero_prefix(pad.len() as int, d);
    crate::text::lemma_hex_value_of_spec_hex(v as int);
    assert(crate::text::hex_value(s.subrange(i + 2, i + f.len() as int)) == v);
}

/// A run of spaces followed by something else spans exactly itself.
proof fn lemma_spaces_at(s: Seq<u8>, i: int, n: int)
    requires
        0 <= i,
        0 <= n,
        i + n <= s.len(),
        s.subrange(i, i + n) == space_seq(n),
        i + n == s.len() || s[i + n] != 0x20,
    ensures
        span_spaces(s, i) == i + n,
{
    assert forall|k: int| i <= k < i + n implies #[trigger] s[k] == 0x20 by {
        assert(s.subrange(i, i + n)[k - i] == s[k]);
        assert(space_seq(n)[k - i] == 0x20);
    }
    crate::text::lemma_span_spaces_is(s, i, i + n);
}

/// A rendered decimal numeral at the end of a line parses back to its
/// value.
proof fn lemma_parse_dec_tail(s: Seq<u8>, i: int, v: u64)
    requires
        0 <= i,
        i + spec_dec(v as int).len() == s.len(),
        s.subrange(i, s.len() as int) == spec_dec(v as int),
    ensures
        parse_dec_u64_at(s, i) == Ok::<(u64, int), Seq<char>>((v, s.len() as int)),
{
    let d = spec_dec(v as int);
    crate::text::lemma_dec_value_of_spec_dec(v as int);
    assert forall|k: int| i <= k < s.len() implies crate::text::is_dec_digit(#[trigger] s[k]) by {
        assert(s.subrange(i, s.len() as int)[k - i] == s[k]);
    }
    crate::text::lemma_span_dec_is(s, i, s.len() as int);
    assert(s.subrange(i, s.len() as int) == d);
}

/// A rendered status line reads back as its three fields, provided the
/// phase is one a map file can record.
pub proof fn lemma_status_round_trip(pos: u64, phase: Phase, pass: u64)
    requires
        phase.persistable(),
        pass <= usize::MAX,
    ensures
        parse_status_spec(status_line_spec(pos, phase, pass)) == Ok::<
            (u64, Phase, u64),
            Seq<char>,
        >((pos, phase, pass)),
{
    let line = status_line_spec(pos, phase, pass);
    let f = spec_hex_field(pos as int);
    let dec = spec_dec(pass as int);
    let h_end = f.len() as int;
    crate::text::lemma_spec_hex_digits(pos as int);
    crate::text::lemma_dec_value_of_spec_dec(pass as int);
    assert(line.len() == f.len() + 5 + 1 + 5 + dec.len());
    assert(line.subrange(0, h_end) =~= f);
    assert(line[h_end] == space_seq(5)[0]);
    assert(line[h_end] == 0x20);
    lemma_parse_hex_field(line, 0, pos);
    assert(line.subrange(h_end, h_end + 5) =~= space_seq(5));
    assert(line[h_end + 5] == phase.spec_byte());
    assert(phase.spec_byte() != 0x20);
    lemma_spaces_at(line, h_end, 5);
    let j = h_end + 5;
    assert(Phase::spec_from_byte(line[j]) == Some(phase));
    assert(line.subrange(j + 1, j + 6) =~= space_seq(5));
    assert(line[j + 6] == dec[0]);
    assert(crate::text::is_dec_digit(dec[0]));
    assert(line[j + 6] != 0x20);
    lemma_spaces_at(line, j + 1, 5);
    let k = j + 6;
    assert(line.subrange(k, line.len() as int) =~= dec);
    lemma_parse_dec_tail(line, k, pass);
    assert(k > j + 1);
    assert(k < line.len());
}

/// A rendered region line reads back as its region.
pub proof fn lemma_region_round_trip(r: Region)
    requires
        r.start + r.length <= u64::MAX,
    ensures
        parse_region_spec(region_line_spec(r)) == Ok::<Region, Seq<char>>(r),
{
    let line = region_line_spec(r);
    let f1 = spec_hex_field(r.start as int);
    let f2 = spec_hex_field(r.length as int);
    crate::text::lemma_spec_hex_digits(r.start as int);
    crate::text::lemma_spec_hex_digits(r.length as int);
    let a = f1.len() as int;
    assert(line.len() == f1.len() + 2 + f2.len() + 2 + 1);
    assert(line.subrange(0, a) =~= f1);
    assert(line[a] == space_seq(2)[0]);
    assert(line[a] == 0x20);
    lemma_parse_hex_field(line, 0, r.start);
    assert(line.subrange(a, a + 2) =~= space_seq(2));
    assert(line[a + 2] == f2[0]);
    assert(f2[0] == 0x30);
    lemma_spaces_at(line, a, 2);
    let b = a + 2;
    assert(line.subrange(b, b + f2.len() as int) =~= f2);
    assert(line[b + f2.len() as int] == space_seq(2)[0]);
    assert(line[b + f2.len() as int] == 0x20);
    assert(!crate::text::is_hex_digit(line[b + f2.len() as int]));
    lemma_parse_hex_field(line, b, r.length);
    let c = b + f2.len() as int;
    assert(line.subrange(c, c + 2) =~= space_seq(2));
    assert(line[c + 2] == r.tag.spec_byte());
    assert(r.tag.spec_byte() != 0x20);
    lemma_spaces_at(line, c, 2);
    let w = c + 2;
    assert(w < line.len());
    assert(SectorState::spec_from_byte(line[w]) == Some(r.tag));
}

/// The region lines of a list of runs, one per run.
pub open spec fn region_lines(runs: Seq<Region>) -> Seq<Seq<u8>> {
    runs.map_values(|r: Region| region_line_spec(r))
}

/// No byte of a status or region line is a newline, and each begins with
/// `0`, so none is a comment.
proof fn lemma_hex_field_bytes(v: u64)
    ensures
        forall|k: int|
            0 <= k < spec_hex_field(v as int).len() ==> #[trigger] spec_hex_field(v as int)[k]
                != 10 && spec_hex_field(v as int)[k] != 0x20,
        spec_hex_field(v as int)[0] == 0x30,
{
    let f = spec_hex_field(v as int);
    let d = crate::text::spec_hex(v as int);
    let pad = crate::text::spec_hex_pad(v as int);
    crate::text::lemma_spec_hex_digits(v as int);
    assert forall|k: int| 0 <= k < f.len() implies #[trigger] f[k] != 10 && f[k] != 0x20 by {
        if k >= 2 {
            if k < 2 + pad.len() {
                assert(f[k] == pad[k - 2]);
                assert(pad[k - 2] == 0x30);
            } else {
                assert(f[k] == d[k - 2 - pad.len()]);
                assert(crate::text::is_hex_digit(f[k]));
            }
        }
    }
}

proof fn lemma_status_line_bytes(pos: u64, phase: Phase, pass: u64)
    ensures
        forall|k: int|
            0 <= k < status_line_spec(pos, phase, pass).len() ==> #[trigger] status_line_spec(
                pos,
                phase,
                pass,
            )[k] != 10,
        is_content(status_line_spec(pos, phase, pass)),
        status_line_spec(pos, phase, pass).len() > 0,
{
    let line = status_line_spec(pos, phase, pass);
    let f = spec_hex_field(pos as int);
    let dec = spec_dec(pass as int);
    lemma_hex_field_bytes(pos);
    crate::text::lemma_dec_value_of_spec_dec(pass as int);
    assert forall|k: int| 0 <= k < line.len() implies #[trigger] line[k] != 10 by {
        let a = f.len() as int;
        if k < a {
            assert(line[k] == f[k]);
        } else if k < a + 5 {
            assert(line[k] == space_seq(5)[k - a]);
            assert(line[k] == 0x20);
        } else if k == a + 5 {
            assert(line[k] == phase.spec_byte());
        } else if k < a + 11 {
            assert(line[k] == space_seq(5)[k - a - 6]);
            assert(line[k] == 0x20);
        } else {
            assert(line[k] == dec[k - a - 11]);
            assert(crate::text::is_dec_digit(line[k]));
        }
    }
    assert(line[0] == f[0]);
    assert(line[0] == 0x30);
}

proof fn lemma_region_line_bytes(r: Region)
    ensures
        forall|k: int|
            0 <= k < region_line_spec(r).len() ==> #[trigger] region_line_spec(r)[k] != 10,
        is_content(region_line_spec(r)),
        region_line_spec(r).len() > 0,
{
    let line = region_line_spec(r);
    let f1 = spec_hex_field(r.start as int);
    let f2 = spec_hex_field(r.length as int);
    lemma_hex_field_bytes(r.start);
    lemma_hex_field_bytes(r.length);
    assert forall|k: int| 0 <= k < line.len() implies #[trigger] line[k] != 10 by {
        let a = f1.len() as int;
        let b = a + 2;
        let c = b + f2.len() as int;
        if k < a {
            assert(line[k] == f1[k]);
        } else if k < b {
            assert(line[k] == space_seq(2)[k - a]);
            assert(line[k] == 0x20);
        } else if k < c {
            assert(line[k] == f2[k - b]);
        } else if k < c + 2 {
            assert(line[k] == space_seq(2)[k - c]);
            assert(line[k] == 0x20);
        } else {
            assert(line[k] == r.tag.spec_byte());
        }
    }
    assert(line[0] == f1[0]);
    assert(line[0] == 0x30);
}

/// The rendered region lines split back into one line per run.
proof fn lemma_split_render_lines(runs: Seq<Region>)
    ensures
        split_lines(render_lines_spec(runs)) == region_lines(runs),
        forall|k: int| 0 <= k < region_lines(runs).len() ==> is_content(#[trigger] region_lines(runs)[k]),
    decreases runs.len(),
{
    if runs.len() == 0 {
        assert(render_lines_spec(runs) =~= Seq::<u8>::empty());
        assert(region_lines(runs) =~= Seq::<Seq<u8>>::empty());
    } else {
        lemma_split_render_lines(runs.drop_first());
        lemma_region_line_bytes(runs[0]);
        assert(render_lines_spec(runs) =~= region_line_spec(runs[0]) + seq![10u8]
            + render_lines_spec(runs.drop_first()));
        lemma_split_lines_step(region_line_spec(runs[0]), render_lines_spec(runs.drop_first()));
        assert(region_lines(runs) =~= seq![region_line_spec(runs[0])] + region_lines(
            runs.drop_first(),
        ));
        assert forall|k: int|
            0 <= k < region_lines(runs).len() implies is_content(
            #[trigger] region_lines(runs)[k]) by {
            if k > 0 {
                assert(region_lines(runs)[k] == region_lines(runs.drop_first())[k - 1]);
            } else {
                assert(region_lines(runs)[0] == region_line_spec(runs[0]));
            }
        }
    }
}

/// Filtering keeps a list with no comments whole.
proof fn lemma_filter_content_all(ls: Seq<Seq<u8>>)
    requires
        forall|k: int| 0 <= k < ls.len() ==> is_content(#[trigger] ls[k]),
    ensures
        filter_content(ls) == ls,
    decreases ls.len(),
{
    reveal(Seq::filter);
    if ls.len() > 0 {
        assert forall|k: int|
            0 <= k < ls.drop_last().len() implies is_content(#[trigger] ls.drop_last()[k]) by {
            assert(ls.drop_last()[k] == ls[k]);
        }
        lemma_filter_content_all(ls.drop_last());
        assert(ls[ls.len() - 1] == ls.last());
        assert(filter_content(ls) =~= ls);
    }
}

/// The rendered region lines parse back to the same runs.
proof fn lemma_parse_region_lines(runs: Seq<Region>)
    requires
        forall|k: int| 0 <= k < runs.len() ==> (#[trigger] runs[k]).start + runs[k].length
            <= u64::MAX,
    ensures
        parse_regions_spec(region_lines(runs)) == Ok::<Seq<Region>, Seq<char>>(runs),
    decreases runs.len(),
{
    if runs.len() == 0 {
        assert(region_lines(runs) =~= Seq::<Seq<u8>>::empty());
        assert(parse_regions_spec(region_lines(runs)) == Ok::<Seq<Region>, Seq<char>>(
            Seq::empty(),
        ));
        assert(runs =~= Seq::<Region>::empty());
    } else {
        assert forall|k: int|
            0 <= k < runs.drop_last().len() implies (#[trigger] runs.drop_last()[k]).start
            + runs.drop_last()[k].length <= u64::MAX by {
            assert(runs.drop_last()[k] == runs[k]);
        }
        lemma_parse_region_lines(runs.drop_last());
        assert(runs[runs.len() - 1] == runs.last());
        lemma_region_round_trip(runs.last());
        assert(region_lines(runs).drop_last() =~= region_lines(runs.drop_last()));
        assert(region_lines(runs).last() == region_line_spec(runs.last()));
        assert(runs.drop_last().push(runs.last()) =~= runs);
    }
}

/// A well-formed map rendered to its file format and read back yields the
/// same position, phase, pass, size, and regions, run for run. This is
/// what makes resuming from a persisted map sound: the reloaded session
/// starts from exactly the state that was synced. The phase must be one a
/// map file can record, and the recorded size must be the extent of the
/// runs, as it is for every map this crate builds.
pub proof fn lemma_map_file_round_trip(m: MapModel)
    requires
        wf_runs(m.runs),
        m.phase.persistable(),
        m.pass <= usize::MAX,
        m.size_bytes == regions_size(m.runs),
    ensures
        parse_map_spec(render_spec(m)) == Ok::<RawMap, Seq<char>>(
            RawMap {
                pos: m.pos,
                phase: m.phase,
                pass: m.pass,
                regions: m.runs,
                size_bytes: m.size_bytes as int,
            },
        ),
{
    let text = render_spec(m);
    let status = status_line_spec(m.pos, m.phase, m.pass);
    lemma_status_line_bytes(m.pos, m.phase, m.pass);
    lemma_split_render_lines(m.runs);
    assert(text =~= status + seq![10u8] + render_lines_spec(m.runs));
    lemma_split_lines_step(status, render_lines_spec(m.runs));
    assert(split_lines(text) == seq![status] + region_lines(m.runs));
    let ls0 = seq![status] + region_lines(m.runs);
    assert forall|k: int| 0 <= k < ls0.len() implies is_content(#[trigger] ls0[k]) by {
        if k == 0 {
            assert(ls0[0] == status);
        } else {
            assert(ls0[k] == region_lines(m.runs)[k - 1]);
        }
    }
    lemma_filter_content_all(ls0);
    assert(content_lines(text) == ls0);
    assert(ls0[0] == status);
    lemma_status_round_trip(m.pos, m.phase, m.pass);
    assert(ls0.subrange(1, ls0.len() as int) =~= region_lines(m.runs));
    assert forall|k: int|
        0 <= k < m.runs.len() implies (#[trigger] m.runs[k]).start + m.runs[k].length
        <= u64::MAX by {
        assert(m.runs[k].wf());
    }
    lemma_parse_region_lines(m.runs);
}

/// Read the three fields of a status line.
fn parse_status_line(line: &[u8]) -> (r: Result<(u64, Phase, usize), ParseError>)
    ensures
        match r {
            Ok(t) => parse_status_spec(line@) == Ok::<(u64, Phase, u64), Seq<char>>(
                (t.0, t.1, t.2 as u64),
            ),
            Err(e) => parse_status_spec(line@) is Err && parse_status_spec(line@) == Err::<
                (u64, Phase, u64),
                Seq<char>,
            >(e@),
        },
{
    let n = line.len();
    let (pos, i) = match parse_hex_field(line, 0) {
        Ok(p) => p,
        Err(e) => {
            return Err(e);
        },
    };
    let j = skip_spaces(line, i);
    if j == i || j >= n {
        return Err(ParseError::new("phase"));
    }
    let ph = match Phase::from_byte(line[j]) {
        Some(ph) => ph,
        None => {
            return Err(ParseError::new("phase"));
        },
    };
    let k = skip_spaces(line, j + 1);
    if k >= n {
        return Ok((pos, ph, 1));
    }
    if k == j + 1 {
        return Err(ParseError::new("pass"));
    }
    let (pass, _end) = match parse_dec_field(line, k) {
        Ok(p) => p,
        Err(e) => {
            return Err(e);
        },
    };
    if pass > usize::MAX as u64 {
        return Err(ParseError::new("pass"));
    }
    Ok((pos, ph, pass as usize))
}

/// Read the three fields of a region line.
fn parse_region_line(line: &[u8]) -> (r: Result<Region, ParseError>)
    ensures
        match r {
            Ok(reg) => parse_region_spec(line@) == Ok::<Region, Seq<char>>(reg),
            Err(e) => parse_region_spec(line@) is Err && parse_region_spec(line@) == Err::<
                Region,
                Seq<char>,
            >(e@),
        },
{
    let n = line.len();
    let (start, i) = match parse_hex_field(line, 0) {
        Ok(p) => p,
        Err(e) => {
            return Err(e);
        },
    };
    let j = skip_spaces(line, i);
    if j == i {
        return Err(ParseError::new("hex value"));
    }
    let (length, k) = match parse_hex_field(line, j) {
        Ok(p) => p,
        Err(e) => {
            return Err(e);
        },
    };
    if length > u64::MAX - start {
        return Err(ParseError::new("region end"));
    }
    let w = skip_spaces(line, k);
    if w == k || w >= n {
        return Err(ParseError::new("sector state"));
    }
    let st = match SectorState::from_byte(line[w]) {
        Some(st) => st,
        None => {
            return Err(ParseError::new("sector state"));
        },
    };
    Ok(Region { start, length, tag: st })
}

/// Cut a text into its lines at newline bytes.
fn split_into_lines(data: &[u8]) -> (lines: Vec<Vec<u8>>)
    ensures
        lines.deep_view() == split_lines(data@),
{
    let n = data.len();
    let mut lines: Vec<Vec<u8>> = Vec::new();
    let mut cur: Vec<u8> = Vec::new();
    let mut i: usize = 0;
    proof {
        assert(lines.deep_view() =~= Seq::<Seq<u8>>::empty());
        assert(cur@ + data@.skip(0) =~= data@);
        assert(Seq::<Seq<u8>>::empty() + split_lines(data@) =~= split_lines(data@));
    }
    while i < n
        invariant
            0 <= i <= n,
            n == data@.len(),
            forall|k: int| 0 <= k < cur@.len() ==> #[trigger] cur@[k] != 10,
            split_lines(data@) == lines.deep_view() + split_lines(cur@ + data@.skip(i as int)),
        decreases n - i,
    {
        let b = data[i];
        let ghost prev_lines = lines.deep_view();
        let ghost prev_cur = cur@;
        if b == 10 {
            proof {
                lemma_split_lines_step(prev_cur, data@.skip(i as int + 1));
                assert(prev_cur + data@.skip(i as int) =~= prev_cur + seq![10u8] + data@.skip(
                    i as int + 1,
                ));
            }
            lines.push(cur);
            cur = Vec::new();
            proof {
                assert(lines.deep_view() =~~= prev_lines.push(prev_cur));
                assert(cur@ + data@.skip(i as int + 1) =~= data@.skip(i as int + 1));
                assert(lines.deep_view() + split_lines(data@.skip(i as int + 1)) =~= prev_lines + (
                seq![prev_cur] + split_lines(data@.skip(i as int + 1))));
            }
        } else {
            cur.push(b);
            proof {
                assert(cur@ + data@.skip(i as int + 1) =~= prev_cur + data@.skip(i as int));
            }
        }
        i += 1;
    }
    proof {
        assert(data@.skip(n as int) =~= Seq::<u8>::empty());
        assert(cur@ + data@.skip(n as int) =~= cur@);
    }
    if cur.len() > 0 {
        let ghost prev_lines = lines.deep_view();
        let ghost prev_cur = cur@;
        proof {
            lemma_split_lines_whole(prev_cur);
        }
        lines.push(cur);
        proof {
            assert(lines.deep_view() =~~= prev_lines.push(prev_cur));
            assert(prev_lines + seq![prev_cur] =~~= prev_lines.push(prev_cur));
        }
    } else {
        proof {
            assert(split_lines(cur@) == Seq::<Seq<u8>>::empty());
            assert(lines.deep_view() + Seq::<Seq<u8>>::empty() =~= lines.deep_view());
        }
    }
    lines
}

/// Drop the comment lines.
fn content_of(lines: &Vec<Vec<u8>>) -> (c: Vec<Vec<u8>>)
    ensures
        c.deep_view() == filter_content(lines.deep_view()),
{
    let n = lines.len();
    let mut c: Vec<Vec<u8>> = Vec::new();
    let mut i: usize = 0;
    proof {
        assert(lines.deep_view().take(0) =~= Seq::<Seq<u8>>::empty());
        reveal(Seq::filter);
    }
    while i < n
        invariant
            0 <= i <= n,
            n == lines@.len(),
            n == lines.deep_view().len(),
            c.deep_view() == filter_content(lines.deep_view().take(i as int)),
        decreases n - i,
    {
        let ghost prev = c.deep_view();
        let line = &lines[i];
        let keep = if line.len() > 0 {
            line[0] != 0x23
        } else {
            true
        };
        proof {
            assert(lines.deep_view()[i as int] == lines@[i as int]@);
            assert(keep == is_content(lines.deep_view()[i as int]));
            assert(lines.deep_view().take(i as int + 1) =~= lines.deep_view().take(
                i as int,
            ).push(lines.deep_view()[i as int]));
            lemma_filter_content_push(
                lines.deep_view().take(i as int),
                lines.deep_view()[i as int],
            );
        }
        if keep {
            let copy = copy_line(line);
            c.push(copy);
            proof {
                assert(c.deep_view() =~~= prev.push(lines.deep_view()[i as int]));
            }
        }
        i += 1;
    }
    proof {
        assert(lines.deep_view().take(n as int) =~= lines.deep_view());
    }
    c
}

/// A byte-for-byte copy of one line.
fn copy_line(line: &Vec<u8>) -> (c: Vec<u8>)
    ensures
        c@ == line@,
{
    let n = line.len();
    let mut c: Vec<u8> = Vec::new();
    let mut i: usize = 0;
    while i < n
        invariant
            0 <= i <= n,
            n == line@.len(),
            c@ == line@.take(i as int),
        decreases n - i,
    {
        c.push(line[i]);
        proof {
            assert(line@.take(i as int + 1) =~= line@.take(i as int).push(line@[i as int]));
        }
        i += 1;
    }
    proof {
        assert(line@.take(n as int) =~= line@);
    }
    c
}

} // verus!
