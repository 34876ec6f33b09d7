//! Range remapping: splitting half-open intervals against piecewise
//! source-to-destination maps, chaining stages of such maps, and taking the
//! least reachable start value.

use vstd::prelude::*;
use crate::Error;

verus! {

/// Half-open interval `[start, end)` of `u64` values.
///
/// An interval with `start == end` is empty and carries no values.
#[derive(Clone, Copy, Debug, PartialEq, Eq)]
pub struct Interval {
    pub start: u64,
    pub end: u64,
}

impl Interval {
    /// Well-formed: `start <= end`.
    pub open spec fn wf(self) -> bool {
        self.start <= self.end
    }

    /// The number of values the interval carries.
    pub open spec fn len(self) -> int {
        self.end - self.start
    }

    /// Whether the interval holds the value `v`.
    pub open spec fn has(self, v: int) -> bool {
        self.start <= v < self.end
    }

    /// Whether the interval carries no values.
    pub open spec fn empty(self) -> bool {
        self.end <= self.start
    }

    /// Builds `[start, end)`, rejecting `start > end`.
    pub fn new(start: u64, end: u64) -> (r: Result<Interval, Error>)
        ensures
            match r {
                Ok(i) => start <= end && i == (Interval { start, end }),
                Err(e) => start > end && e == Error::InvalidInterval,
            },
    {
        if start <= end {
            Ok(Interval { start, end })
        } else {
            Err(Error::InvalidInterval)
        }
    }

    /// Whether the interval carries no values.
    pub fn is_empty(&self) -> (r: bool)
        ensures
            r == self.empty(),
    {
        self.end <= self.start
    }
}

/// One piecewise translation: the values of `source_range` map to
/// `destination_range`, keeping their offset from the range start.
#[derive(Clone, Copy, Debug, PartialEq, Eq)]
pub struct RangeMap {
    pub source_range: Interval,
    pub destination_range: Interval,
}

/// The three pieces `RangeMap::apply` splits an interval into.
#[derive(Clone, Copy, Debug, PartialEq, Eq)]
pub struct RangeMapResult {
    /// The part of the input that lies before the source range, untranslated.
    pub below_range: Option<Interval>,
    /// The part of the input that lies at or past the source end, untranslated.
    pub above_range: Option<Interval>,
    /// The overlap with the source range, translated to destination values.
    pub result: Option<Interval>,
}

/// Whether an optional interval holds the value `v`.
pub open spec fn opt_has(o: Option<Interval>, v: int) -> bool {
    match o {
        Some(i) => i.has(v),
        None => false,
    }
}

impl RangeMap {
    /// Well-formed: both intervals well-formed and of one length.
    pub open spec fn wf(self) -> bool {
        &&& self.source_range.wf()
        &&& self.destination_range.wf()
        &&& self.source_range.len() == self.destination_range.len()
    }

    /// What the map adds to a source value to reach its destination value.
    pub open spec fn offset(self) -> int {
        self.destination_range.start - self.source_range.start
    }

    /// The part of `range` strictly before the source range.
    pub open spec fn below_piece(self, range: Interval) -> Option<Interval> {
        let hi = if self.source_range.start < range.end {
            self.source_range.start
        } else {
            range.end
        };
        if range.start < hi {
            Some(Interval { start: range.start, end: hi })
        } else {
            None
        }
    }

    /// The part of `range` at or past the source range's end.
    pub open spec fn above_piece(self, range: Interval) -> Option<Interval> {
        let lo = if self.source_range.end > range.start {
            self.source_range.end
        } else {
            range.start
        };
        if lo < range.end {
            Some(Interval { start: lo, end: range.end })
        } else {
            None
        }
    }

    /// The overlap of `range` with the source range, in source values.
    pub open spec fn overlap_piece(self, range: Interval) -> Option<Interval> {
        let lo = if self.source_range.start > range.start {
            self.source_range.start
        } else {
            range.start
        };
        let hi = if self.source_range.end < range.end {
            self.source_range.end
        } else {
            range.end
        };
        if lo < hi {
            Some(Interval { start: lo, end: hi })
        } else {
            None
        }
    }

    /// The overlap translated into destination values.
    pub open spec fn mapped_piece(self, range: Interval) -> Option<Interval> {
        match self.overlap_piece(range) {
            Some(o) => Some(
                Interval {
                    start: (o.start + self.offset()) as u64,
                    end: (o.end + self.offset()) as u64,
                },
            ),
            None => None,
        }
    }

    /// Builds a map from two intervals of one length.
    pub fn new(source_range: Interval, destination_range: Interval) -> (r: Result<
        RangeMap,
        Error,
    >)
        requires
            source_range.wf(),
            destination_range.wf(),
        ensures
            match r {
                Ok(m) => m == (RangeMap { source_range, destination_range }) && m.wf(),
                Err(e) => source_range.len() != destination_range.len() && e
                    == Error::InvalidInterval,
            },
    {
        if source_range.end - source_range.start == destination_range.end
            - destination_range.start {
            Ok(RangeMap { source_range, destination_range })
        } else {
            Err(Error::InvalidInterval)
        }
    }

    /// Builds the map an almanac line `destination source length` denotes.
    pub fn from_starts(destination_start: u64, source_start: u64, length: u64) -> (r: Result<
        RangeMap,
        Error,
    >)
        ensures
            match r {
                Ok(m) => {
                    &&& source_start + length <= u64::MAX
                    &&& destination_start + length <= u64::MAX
                    &&& m.source_range == (Interval {
                        start: source_start,
                        end: (source_start + length) as u64,
                    })
                    &&& m.destination_range == (Interval {
                        start: destination_start,
                        end: (destination_start + length) as u64,
                    })
                    &&& m.wf()
                },
                Err(e) => (source_start + length > u64::MAX || destination_start + length
                    > u64::MAX) && e == Error::InvalidInterval,
            },
    {
        let s_end = source_start.checked_add(length);
        let d_end = destination_start.checked_add(length);
        match (s_end, d_end) {
            (Some(se), Some(de)) => Ok(
                RangeMap {
                    source_range: Interval { start: source_start, end: se },
                    destination_range: Interval { start: destination_start, end: de },
                },
            ),
            _ => Err(Error::InvalidInterval),
        }
    }

    /// Splits `range` against the source range into the piece below it, the
    /// piece above it, and the translated overlap; empty pieces are omitted.
    pub fn apply(&self, range: Interval) -> (r: RangeMapResult)
        requires
            self.wf(),
            range.wf(),
        ensures
            r.below_range == self.below_piece(range),
            r.above_range == self.above_piece(range),
            r.result == self.mapped_piece(range),
    {
        let src = self.source_range;
        let dst = self.destination_range;

        let below_hi = if src.start < range.end {
            src.start
        } else {
            range.end
        };
        let below_range = if range.start < below_hi {
            Some(Interval { start: range.start, end: below_hi })
        } else {
            None
        };

        let above_lo = if src.end > range.start {
            src.end
        } else {
            range.start
        };
        let above_range = if above_lo < range.end {
            Some(Interval { start: above_lo, end: range.end })
        } else {
            None
        };

        let o_lo = if src.start > range.start {
            src.start
        } else {
            range.start
        };
        let o_hi = if src.end < range.end {
            src.end
        } else {
            range.end
        };
        let result = if o_lo < o_hi {
            let t_lo = dst.start + (o_lo - src.start);
            let t_hi = dst.end - (src.end - o_hi);
            Some(Interval { start: t_lo, end: t_hi })
        } else {
            None
        };

        RangeMapResult { below_range, above_range, result }
    }
}

/// Partition law: the values of `range` are exactly those of the `below`
/// piece, the untranslated overlap, and the `above` piece, and no value
/// lies in two of the three.
pub proof fn lemma_apply_map_partition(m: RangeMap, range: Interval, v: int)
    requires
        m.wf(),
        range.wf(),
    ensures
        range.has(v) <==> (opt_has(m.below_piece(range), v) || opt_has(m.overlap_piece(range), v)
            || opt_has(m.above_piece(range), v)),
        !(opt_has(m.below_piece(range), v) && opt_has(m.overlap_piece(range), v)),
        !(opt_has(m.below_piece(range), v) && opt_has(m.above_piece(range), v)),
        !(opt_has(m.overlap_piece(range), v) && opt_has(m.above_piece(range), v)),
{
}

/// Length preservation: the translated overlap has the length of the
/// untranslated overlap, and translation shifts both ends by the offset.
pub proof fn lemma_apply_map_length(m: RangeMap, range: Interval)
    requires
        m.wf(),
        range.wf(),
    ensures
        match (m.overlap_piece(range), m.mapped_piece(range)) {
            (Some(o), Some(t)) => t.len() == o.len() && t.start == o.start + m.offset() && t.end
                == o.end + m.offset() && t.wf(),
            (None, None) => true,
            _ => false,
        },
{
}

/// Full coverage: when the source range holds all of `range`, nothing is
/// below or above, and the overlap is the whole of `range`, translated.
pub proof fn lemma_apply_map_full_coverage(m: RangeMap, range: Interval)
    requires
        m.wf(),
        range.wf(),
        m.source_range.start <= range.start,
        range.end <= m.source_range.end,
    ensures
        m.below_piece(range) is None,
        m.above_piece(range) is None,
        !range.empty() ==> m.mapped_piece(range) == Some(
            Interval {
                start: (range.start + m.offset()) as u64,
                end: (range.end + m.offset()) as u64,
            },
        ),
        range.empty() ==> m.mapped_piece(range) is None,
{
}

/// Whether some map of the list has `v` in its source range.
pub open spec fn hits(maps: Seq<RangeMap>, v: int) -> bool {
    exists|j: int| 0 <= j < maps.len() && (#[trigger] maps[j]).source_range.has(v)
}

/// The value `v` after one stage: the first map whose source holds `v`
/// translates it, and a value no source holds passes through unchanged.
pub open spec fn stage_value(maps: Seq<RangeMap>, v: int) -> int
    decreases maps.len(),
{
    if maps.len() == 0 {
        v
    } else if maps[0].source_range.has(v) {
        v + maps[0].offset()
    } else {
        stage_value(maps.skip(1), v)
    }
}

/// Whether some interval of the list holds the value `v`.
pub open spec fn covers(s: Seq<Interval>, v: int) -> bool {
    exists|i: int| 0 <= i < s.len() && (#[trigger] s[i]).has(v)
}

proof fn lemma_covers_push(s: Seq<Interval>, x: Interval)
    ensures
        forall|v: int| covers(s.push(x), v) <==> covers(s, v) || x.has(v),
{
    assert forall|v: int| covers(s.push(x), v) <==> covers(s, v) || x.has(v) by {
        if covers(s.push(x), v) {
            let i = choose|i: int| 0 <= i < s.push(x).len() && (#[trigger] s.push(x)[i]).has(v);
            if i < s.len() {
                assert(s[i].has(v));
            } else {
                assert(x.has(v));
            }
        }
        if covers(s, v) {
            let i = choose|i: int| 0 <= i < s.len() && (#[trigger] s[i]).has(v);
            assert(s.push(x)[i].has(v));
        }
        if x.has(v) {
            assert(s.push(x)[s.len() as int].has(v));
        }
    }
}

proof fn lemma_covers_pop(s: Seq<Interval>)
    requires
        s.len() > 0,
    ensures
        forall|v: int| covers(s, v) <==> covers(s.take(s.len() - 1), v) || s.last().has(v),
{
    assert forall|v: int| covers(s, v) <==> covers(s.take(s.len() - 1), v) || s.last().has(v) by {
        if covers(s, v) {
            let i = choose|i: int| 0 <= i < s.len() && (#[trigger] s[i]).has(v);
            if i < s.len() - 1 {
                assert(s.take(s.len() - 1)[i].has(v));
            } else {
                assert(s.last().has(v));
            }
        }
        if covers(s.take(s.len() - 1), v) {
            let i = choose|i: int|
                0 <= i < s.len() - 1 && (#[trigger] s.take(s.len() - 1)[i]).has(v);
            assert(s[i].has(v));
        }
        if s.last().has(v) {
            assert(s[s.len() - 1].has(v));
        }
    }
}

proof fn lemma_hits_take_extend(maps: Seq<RangeMap>, k: int)
    requires
        0 <= k < maps.len(),
    ensures
        forall|v: int|
            hits(maps.take(k + 1), v) <==> hits(maps.take(k), v) || maps[k].source_range.has(v),
{
    assert forall|v: int|
        hits(maps.take(k + 1), v) <==> hits(maps.take(k), v) || maps[k].source_range.has(
            v,
        ) by {
        if hits(maps.take(k + 1), v) {
            let j = choose|j: int|
                0 <= j < maps.take(k + 1).len() && (#[trigger] maps.take(k + 1)[j]).source_range.has(v);
            if j < k {
                assert(maps.take(k)[j].source_range.has(v));
            } else {
                assert(maps[k].source_range.has(v));
            }
        }
        if hits(maps.take(k), v) {
            let j = choose|j: int|
                0 <= j < maps.take(k).len() && (#[trigger] maps.take(k)[j]).source_range.has(v);
            assert(maps.take(k + 1)[j].source_range.has(v));
        }
        if maps[k].source_range.has(v) {
            assert(maps.take(k + 1)[k].source_range.has(v));
        }
    }
}

/// A value no source holds passes through a stage unchanged.
pub proof fn lemma_stage_value_unhit(maps: Seq<RangeMap>, v: int)
    requires
        !hits(maps, v),
    ensures
        stage_value(maps, v) == v,
    decreases maps.len(),
{
    if maps.len() > 0 {
        assert(!maps[0].source_range.has(v));
        assert(!hits(maps.skip(1), v)) by {
            if hits(maps.skip(1), v) {
                let j = choose|j: int|
                    0 <= j < maps.skip(1).len() && (#[trigger] maps.skip(1)[j]).source_range.has(v);
                assert(maps[j + 1].source_range.has(v));
            }
        }
        lemma_stage_value_unhit(maps.skip(1), v);
    }
}

/// When map `k` is the first whose source holds `v`, the stage translates
/// `v` by that map's offset.
pub proof fn lemma_stage_value_first_hit(maps: Seq<RangeMap>, k: int, v: int)
    requires
        0 <= k < maps.len(),
        !hits(maps.take(k), v),
        maps[k].source_range.has(v),
    ensures
        stage_value(maps, v) == v + maps[k].offset(),
    decreases k,
{
    if k == 0 {
    } else {
        assert(!maps[0].source_range.has(v)) by {
            assert(maps.take(k)[0] == maps[0]);
        }
        assert(maps.skip(1).take(k - 1) =~= maps.take(k).skip(1));
        assert(!hits(maps.skip(1).take(k - 1), v)) by {
            if hits(maps.skip(1).take(k - 1), v) {
                let j = choose|j: int|
                    0 <= j < maps.skip(1).take(k - 1).len() && (#[trigger] maps.skip(1).take(k - 1)[j]).source_range.has(v);
                assert(maps.take(k)[j + 1].source_range.has(v));
            }
        }
        assert(maps.skip(1)[k - 1] == maps[k]);
        lemma_stage_value_first_hit(maps.skip(1), k - 1, v);
    }
}

/// What `RangeMap::apply` guarantees of each piece, stated over values.
proof fn lemma_apply_pieces(m: RangeMap, cur: Interval)
    requires
        m.wf(),
        cur.wf(),
    ensures
        forall|v: int| opt_has(m.below_piece(cur), v) ==> cur.has(v) && !m.source_range.has(v),
        forall|v: int| opt_has(m.above_piece(cur), v) ==> cur.has(v) && !m.source_range.has(v),
        forall|v: int| opt_has(m.overlap_piece(cur), v) <==> cur.has(v) && m.source_range.has(v),
        forall|v: int|
            opt_has(m.mapped_piece(cur), v) <==> opt_has(m.overlap_piece(cur), v - m.offset()),
        forall|v: int|
            cur.has(v) <==> (opt_has(m.below_piece(cur), v) || opt_has(m.overlap_piece(cur), v)
                || opt_has(m.above_piece(cur), v)),
        match m.below_piece(cur) {
            Some(b) => b.wf() && !b.empty(),
            None => true,
        },
        match m.above_piece(cur) {
            Some(a) => a.wf() && !a.empty(),
            None => true,
        },
        match m.mapped_piece(cur) {
            Some(t) => t.wf() && !t.empty(),
            None => true,
        },
{
    match m.overlap_piece(cur) {
        Some(o) => {
            assert(m.source_range.start <= o.start && o.end <= m.source_range.end);
            assert(o.start + m.offset() == m.destination_range.start + (o.start
                - m.source_range.start));
            assert(o.end + m.offset() == m.destination_range.end - (m.source_range.end - o.end));
        },
        None => {},
    }
}

/// One named transformation stage: an ordered list of range maps and the
/// names of the coordinate spaces it maps from and to.
#[derive(Clone, Debug)]
pub struct AlmanacEntry {
    pub from: Vec<u8>,
    pub to: Vec<u8>,
    pub maps: Vec<RangeMap>,
}

impl AlmanacEntry {
    /// Well-formed: every map of the stage is well-formed.
    pub open spec fn wf(self) -> bool {
        forall|i: int| 0 <= i < self.maps@.len() ==> (#[trigger] self.maps@[i]).wf()
    }

    /// Whether `range` overlaps no source of the stage, all sources nonempty.
    pub open spec fn misses_all_sources(self, range: Interval) -> bool {
        forall|i: int|
            0 <= i < self.maps@.len() ==> {
                let m = #[trigger] self.maps@[i];
                !m.source_range.empty() && (range.end <= m.source_range.start
                    || m.source_range.end <= range.start)
            }
    }

    /// Splits `range` against the maps of the stage in order: pieces a map's
    /// source holds leave translated, the rest is offered to the next map,
    /// and whatever no source held passes through unchanged.
    ///
    /// The intervals returned carry exactly the values `stage_value` gives
    /// to the values of `range`; none of them is empty.  An interval that
    /// touches no source of the stage comes back as the single unchanged
    /// piece of output.
    #[verifier::spinoff_prover]
    #[verifier::rlimit(60)]
    pub fn apply(&self, range: Interval) -> (r: Vec<Interval>)
        requires
            self.wf(),
            range.wf(),
        ensures
            forall|i: int| 0 <= i < r@.len() ==> (#[trigger] r@[i]).wf() && !r@[i].empty(),
            forall|v: int|
                covers(r@, v) <==> exists|w: int|
                    range.has(w) && v == stage_value(self.maps@, w),
            self.misses_all_sources(range) && !range.empty() ==> r@ =~= seq![range],
    {
        let ghost maps = self.maps@;
        let ghost hyp = self.misses_all_sources(range) && !range.empty();
        let mut source_ranges: Vec<Interval> = Vec::new();
        proof {
            lemma_covers_push(source_ranges@, range);
        }
        source_ranges.push(range);
        let mut result_ranges: Vec<Interval> = Vec::new();

        let n = self.maps.len();
        let mut k: usize = 0;
        while k < n
            invariant
                n == maps.len(),
                maps == self.maps@,
                self.wf(),
                range.wf(),
                k <= n,
                forall|i: int|
                    0 <= i < source_ranges@.len() ==> (#[trigger] source_ranges@[i]).wf(),
                forall|i: int|
                    0 <= i < result_ranges@.len() ==> (#[trigger] result_ranges@[i]).wf()
                        && !result_ranges@[i].empty(),
                forall|v: int|
                    covers(source_ranges@, v) <==> range.has(v) && !hits(maps.take(k as int), v),
                forall|v: int|
                    covers(result_ranges@, v) <==> exists|w: int|
                        range.has(w) && hits(maps.take(k as int), w) && v == stage_value(maps, w),
                hyp ==> source_ranges@ =~= seq![range] && result_ranges@.len() == 0,
                hyp == (self.misses_all_sources(range) && !range.empty()),
            decreases n - k,
        {
            let m = self.maps[k];
            let ghost mtake = maps.take(k as int);
            let ghost result0 = result_ranges@;
            let mut new_source: Vec<Interval> = Vec::new();
            while source_ranges.len() > 0
                invariant
                    n == maps.len(),
                    maps == self.maps@,
                    self.wf(),
                    range.wf(),
                    k < n,
                    m == maps[k as int],
                    m.wf(),
                    mtake == maps.take(k as int),
                    forall|i: int|
                        0 <= i < source_ranges@.len() ==> (#[trigger] source_ranges@[i]).wf(),
                    forall|i: int|
                        0 <= i < new_source@.len() ==> (#[trigger] new_source@[i]).wf()
                            && !new_source@[i].empty(),
                    forall|i: int|
                        0 <= i < result_ranges@.len() ==> (#[trigger] result_ranges@[i]).wf()
                            && !result_ranges@[i].empty(),
                    forall|v: int|
                        covers(source_ranges@, v) || covers(new_source@, v) ==> range.has(v)
                            && !hits(mtake, v),
                    forall|v: int|
                        range.has(v) && !hits(mtake, v) && !m.source_range.has(v) ==> covers(
                            source_ranges@,
                            v,
                        ) || covers(new_source@, v),
                    forall|v: int| covers(new_source@, v) ==> !m.source_range.has(v),
                    forall|v: int| covers(result0, v) ==> covers(result_ranges@, v),
                    forall|v: int|
                        covers(result_ranges@, v) ==> covers(result0, v) || (exists|w: int|
                            range.has(w) && !hits(mtake, w) && m.source_range.has(w) && v == w
                                + m.offset()),
                    forall|w: int|
                        range.has(w) && !hits(mtake, w) && m.source_range.has(w) && !covers(
                            source_ranges@,
                            w,
                        ) ==> covers(result_ranges@, w + m.offset()),
                    forall|v: int|
                        covers(result0, v) <==> exists|w: int|
                            range.has(w) && hits(mtake, w) && v == stage_value(maps, w),
                    hyp ==> result_ranges@ =~= result0 && result0.len() == 0 && source_ranges@.len()
                        + new_source@.len() == 1 && (source_ranges@ + new_source@)[0] == range,
                    hyp == (self.misses_all_sources(range) && !range.empty()),
                decreases source_ranges@.len(),
            {
                let ghost src_before = source_ranges@;
                let ghost new_before = new_source@;
                let ghost res_before = result_ranges@;
                let cur = source_ranges.pop().unwrap();
                proof {
                    lemma_covers_pop(src_before);
                    lemma_apply_pieces(m, cur);
                }
                let mr = m.apply(cur);
                if let Some(below) = mr.below_range {
                    proof {
                        lemma_covers_push(new_source@, below);
                    }
                    new_source.push(below);
                }
                if let Some(above) = mr.above_range {
                    proof {
                        lemma_covers_push(new_source@, above);
                    }
                    new_source.push(above);
                }
                if let Some(mapped) = mr.result {
                    proof {
                        lemma_covers_push(result_ranges@, mapped);
                    }
                    result_ranges.push(mapped);
                }
                proof {
                    assert forall|v: int|
                        covers(new_source@, v) <==> covers(new_before, v) || opt_has(
                            m.below_piece(cur),
                            v,
                        ) || opt_has(m.above_piece(cur), v) by {}
                    assert forall|v: int|
                        covers(result_ranges@, v) <==> covers(res_before, v) || opt_has(
                            m.mapped_piece(cur),
                            v,
                        ) by {}
                    // the worklist keeps exactly the not-yet-matched values
                    assert forall|v: int|
                        range.has(v) && !hits(mtake, v) && !m.source_range.has(v) implies covers(
                        source_ranges@,
                        v,
                    ) || covers(new_source@, v) by {
                        if !covers(source_ranges@, v) && !covers(new_before, v) {
                            assert(covers(src_before, v) || covers(new_before, v));
                            assert(cur.has(v));
                            assert(opt_has(m.below_piece(cur), v) || opt_has(
                                m.overlap_piece(cur),
                                v,
                            ) || opt_has(m.above_piece(cur), v));
                            assert(!opt_has(m.overlap_piece(cur), v));
                        }
                    }
                    // everything put into the results this pass is a translated match
                    assert forall|v: int|
                        covers(result_ranges@, v) implies covers(result0, v) || (exists|w: int|
                        range.has(w) && !hits(mtake, w) && m.source_range.has(w) && v == w
                            + m.offset()) by {
                        if !covers(res_before, v) {
                            assert(opt_has(m.mapped_piece(cur), v));
                            let w = v - m.offset();
                            assert(opt_has(m.overlap_piece(cur), w));
                            assert(cur.has(w) && m.source_range.has(w));
                            assert(covers(src_before, w));
                            assert(range.has(w) && !hits(mtake, w));
                        }
                    }
                    // a matched value that left the worklist went to the results
                    assert forall|w: int|
                        range.has(w) && !hits(mtake, w) && m.source_range.has(w) && !covers(
                            source_ranges@,
                            w,
                        ) implies covers(result_ranges@, w + m.offset()) by {
                        if !covers(res_before, w + m.offset()) {
                            if cur.has(w) {
                                assert(opt_has(m.overlap_piece(cur), w));
                                assert(opt_has(m.mapped_piece(cur), w + m.offset()));
                            } else {
                                assert(!covers(src_before, w));
                            }
                        }
                    }
                    if hyp {
                        assert(self.misses_all_sources(range));
                        assert(!m.source_range.empty() && (range.end <= m.source_range.start
                            || m.source_range.end <= range.start));
                        assert(cur == range);
                        assert(m.overlap_piece(cur) is None);
                        if range.end <= m.source_range.start {
                            assert(m.below_piece(cur) == Some(range));
                            assert(m.above_piece(cur) is None);
                        } else {
                            assert(m.above_piece(cur) == Some(range));
                            assert(m.below_piece(cur) is None);
                        }
                    }
                }
            }
            source_ranges = new_source;
            k = k + 1;
            proof {
                lemma_hits_take_extend(maps, k - 1);
                assert forall|v: int|
                    covers(result_ranges@, v) <==> exists|w: int|
                        range.has(w) && hits(maps.take(k as int), w) && v == stage_value(
                            maps,
                            w,
                        ) by {
                    if covers(result_ranges@, v) {
                        if covers(result0, v) {
                            let w = choose|w: int|
                                range.has(w) && hits(mtake, w) && v == stage_value(maps, w);
                            assert(hits(maps.take(k as int), w));
                        } else {
                            let w = choose|w: int|
                                range.has(w) && !hits(mtake, w) && m.source_range.has(w) && v == w
                                    + m.offset();
                            lemma_stage_value_first_hit(maps, k - 1, w);
                            assert(hits(maps.take(k as int), w));
                            assert(v == stage_value(maps, w));
                        }
                    }
                    if exists|w: int|
                        range.has(w) && hits(maps.take(k as int), w) && v == stage_value(maps, w) {
                        let w = choose|w: int|
                            range.has(w) && hits(maps.take(k as int), w) && v == stage_value(
                                maps,
                                w,
                            );
                        if hits(mtake, w) {
                            assert(covers(result0, v));
                        } else {
                            assert(m.source_range.has(w));
                            lemma_stage_value_first_hit(maps, k - 1, w);
                            assert(covers(result_ranges@, w + m.offset()));
                        }
                    }
                }
            }
        }
        proof {
            assert(maps.take(n as int) =~= maps);
        }
        let ghost final_src = source_ranges@;
        while source_ranges.len() > 0
            invariant
                range.wf(),
                forall|i: int|
                    0 <= i < source_ranges@.len() ==> (#[trigger] source_ranges@[i]).wf(),
                forall|i: int|
                    0 <= i < result_ranges@.len() ==> (#[trigger] result_ranges@[i]).wf()
                        && !result_ranges@[i].empty(),
                forall|v: int| covers(source_ranges@, v) ==> range.has(v) && !hits(maps, v),
                forall|v: int|
                    covers(result_ranges@, v) ==> (exists|w: int|
                        range.has(w) && hits(maps, w) && v == stage_value(maps, w)) || (range.has(v)
                        && !hits(maps, v)),
                forall|v: int|
                    (exists|w: int| range.has(w) && hits(maps, w) && v == stage_value(maps, w))
                        ==> covers(result_ranges@, v),
                forall|v: int|
                    range.has(v) && !hits(maps, v) && !covers(source_ranges@, v) ==> covers(
                        result_ranges@,
                        v,
                    ),
                hyp ==> result_ranges@ + source_ranges@ =~= seq![range],
                hyp == (self.misses_all_sources(range) && !range.empty()),
                maps == self.maps@,
            decreases source_ranges@.len(),
        {
            let ghost src_before = source_ranges@;
            let ghost res_before = result_ranges@;
            let cur = source_ranges.pop().unwrap();
            proof {
                lemma_covers_pop(src_before);
            }
            if !cur.is_empty() {
                proof {
                    lemma_covers_push(result_ranges@, cur);
                }
                result_ranges.push(cur);
            }
            proof {
                assert forall|v: int|
                    (exists|w: int| range.has(w) && hits(maps, w) && v == stage_value(maps, w))
                        implies covers(result_ranges@, v) by {
                    assert(covers(res_before, v));
                }
            }
        }
        proof {
            assert forall|v: int|
                covers(result_ranges@, v) <==> exists|w: int|
                    range.has(w) && v == stage_value(self.maps@, w) by {
                if covers(result_ranges@, v) {
                    if exists|w: int| range.has(w) && hits(maps, w) && v == stage_value(maps, w) {
                    } else {
                        assert(range.has(v) && !hits(maps, v));
                        lemma_stage_value_unhit(maps, v);
                        assert(v == stage_value(maps, v));
                    }
                }
                if exists|w: int| range.has(w) && v == stage_value(self.maps@, w) {
                    let w = choose|w: int| range.has(w) && v == stage_value(self.maps@, w);
                    if hits(maps, w) {
                        assert(covers(result_ranges@, v));
                    } else {
                        lemma_stage_value_unhit(maps, w);
                        assert(v == w);
                        assert(covers(result_ranges@, v));
                    }
                }
            }
        }
        result_ranges
    }
}

proof fn lemma_covers_concat(a: Seq<Interval>, b: Seq<Interval>)
    ensures
        forall|v: int| covers(a + b, v) <==> covers(a, v) || covers(b, v),
{
    assert forall|v: int| covers(a + b, v) <==> covers(a, v) || covers(b, v) by {
        if covers(a + b, v) {
            let i = choose|i: int| 0 <= i < (a + b).len() && (#[trigger] (a + b)[i]).has(v);
            if i < a.len() {
                assert(a[i].has(v));
            } else {
                assert(b[i - a.len()].has(v));
            }
        }
        if covers(a, v) {
            let i = choose|i: int| 0 <= i < a.len() && (#[trigger] a[i]).has(v);
            assert((a + b)[i].has(v));
        }
        if covers(b, v) {
            let i = choose|i: int| 0 <= i < b.len() && (#[trigger] b[i]).has(v);
            assert((a + b)[a.len() + i].has(v));
        }
    }
}

proof fn lemma_covers_take_extend(s: Seq<Interval>, j: int)
    requires
        0 <= j < s.len(),
    ensures
        forall|v: int| covers(s.take(j + 1), v) <==> covers(s.take(j), v) || s[j].has(v),
{
    assert forall|v: int| covers(s.take(j + 1), v) <==> covers(s.take(j), v) || s[j].has(v) by {
        if covers(s.take(j + 1), v) {
            let i = choose|i: int| 0 <= i < j + 1 && (#[trigger] s.take(j + 1)[i]).has(v);
            if i < j {
                assert(s.take(j)[i].has(v));
            } else {
                assert(s[j].has(v));
            }
        }
        if covers(s.take(j), v) {
            let i = choose|i: int| 0 <= i < j && (#[trigger] s.take(j)[i]).has(v);
            assert(s.take(j + 1)[i].has(v));
        }
        if s[j].has(v) {
            assert(s.take(j + 1)[j].has(v));
        }
    }
}

impl AlmanacEntry {
    /// Applies the stage to every interval of a list and gathers the pieces.
    pub fn apply_all(&self, ranges: &Vec<Interval>) -> (r: Vec<Interval>)
        requires
            self.wf(),
            forall|i: int| 0 <= i < ranges@.len() ==> (#[trigger] ranges@[i]).wf(),
        ensures
            forall|i: int| 0 <= i < r@.len() ==> (#[trigger] r@[i]).wf() && !r@[i].empty(),
            forall|v: int|
                covers(r@, v) <==> exists|w: int|
                    covers(ranges@, w) && v == stage_value(self.maps@, w),
    {
        let mut out: Vec<Interval> = Vec::new();
        let n = ranges.len();
        let mut j: usize = 0;
        while j < n
            invariant
                n == ranges@.len(),
                self.wf(),
                forall|i: int| 0 <= i < ranges@.len() ==> (#[trigger] ranges@[i]).wf(),
                j <= n,
                forall|i: int| 0 <= i < out@.len() ==> (#[trigger] out@[i]).wf() && !out@[i].empty(),
                forall|v: int|
                    covers(out@, v) <==> exists|w: int|
                        covers(ranges@.take(j as int), w) && v == stage_value(self.maps@, w),
            decreases n - j,
        {
            let ghost out_before = out@;
            let mut pieces = self.apply(ranges[j]);
            let ghost pieces_view = pieces@;
            proof {
                lemma_covers_concat(out_before, pieces_view);
                lemma_covers_take_extend(ranges@, j as int);
            }
            out.append(&mut pieces);
            proof {
                assert forall|v: int|
                    covers(out@, v) <==> exists|w: int|
                        covers(ranges@.take(j + 1), w) && v == stage_value(self.maps@, w) by {
                    assert(out@ == out_before + pieces_view);
                    if covers(out@, v) {
                        if covers(out_before, v) {
                            let w = choose|w: int|
                                covers(ranges@.take(j as int), w) && v == stage_value(
                                    self.maps@,
                                    w,
                                );
                            assert(covers(ranges@.take(j + 1), w));
                        } else {
                            assert(covers(pieces_view, v));
                            let w = choose|w: int|
                                ranges@[j as int].has(w) && v == stage_value(self.maps@, w);
                            assert(covers(ranges@.take(j + 1), w));
                        }
                    }
                    if exists|w: int|
                        covers(ranges@.take(j + 1), w) && v == stage_value(self.maps@, w) {
                        let w = choose|w: int|
                            covers(ranges@.take(j + 1), w) && v == stage_value(self.maps@, w);
                        if covers(ranges@.take(j as int), w) {
                            assert(covers(out_before, v));
                        } else {
                            assert(ranges@[j as int].has(w));
                            assert(covers(pieces_view, v));
                        }
                    }
                }
            }
            j = j + 1;
        }
        proof {
            assert(ranges@.take(n as int) =~= ranges@);
        }
        out
    }
}

/// Whether every stage of the pipeline is well-formed.
pub open spec fn all_stages_wf(stages: Seq<AlmanacEntry>) -> bool {
    forall|i: int| 0 <= i < stages.len() ==> (#[trigger] stages[i]).wf()
}

/// The value `v` after running through every stage of the pipeline in order.
pub open spec fn pipeline_value(stages: Seq<AlmanacEntry>, v: int) -> int
    decreases stages.len(),
{
    if stages.len() == 0 {
        v
    } else {
        pipeline_value(stages.skip(1), stage_value(stages[0].maps@, v))
    }
}

proof fn lemma_pipeline_take_extend(stages: Seq<AlmanacEntry>, k: int, w: int)
    requires
        0 <= k < stages.len(),
    ensures
        pipeline_value(stages.take(k + 1), w) == stage_value(
            stages[k].maps@,
            pipeline_value(stages.take(k), w),
        ),
    decreases k,
{
    let sv = stage_value(stages[0].maps@, w);
    if k == 0 {
        assert(stages.take(1).skip(1) =~= Seq::<AlmanacEntry>::empty());
        assert(stages.take(1)[0] == stages[0]);
        assert(stages.take(0) =~= Seq::<AlmanacEntry>::empty());
        assert(pipeline_value(Seq::<AlmanacEntry>::empty(), sv) == sv);
        assert(pipeline_value(stages.take(1), w) == pipeline_value(
            stages.take(1).skip(1),
            stage_value(stages.take(1)[0].maps@, w),
        ));
    } else {
        assert(stages.take(k + 1).skip(1) =~= stages.skip(1).take(k));
        assert(stages.take(k).skip(1) =~= stages.skip(1).take(k - 1));
        assert(stages.skip(1)[k - 1] == stages[k]);
        assert(stages.take(k + 1)[0] == stages[0]);
        assert(stages.take(k)[0] == stages[0]);
        lemma_pipeline_take_extend(stages.skip(1), k - 1, sv);
        assert(pipeline_value(stages.take(k + 1), w) == pipeline_value(
            stages.skip(1).take(k),
            sv,
        ));
        assert(pipeline_value(stages.take(k), w) == pipeline_value(
            stages.skip(1).take(k - 1),
            sv,
        ));
    }
}

/// Feeds the interval list through each stage in order.
pub fn apply_pipeline(initial: Vec<Interval>, stages: &Vec<AlmanacEntry>) -> (r: Vec<Interval>)
    requires
        all_stages_wf(stages@),
        forall|i: int| 0 <= i < initial@.len() ==> (#[trigger] initial@[i]).wf(),
    ensures
        forall|i: int| 0 <= i < r@.len() ==> (#[trigger] r@[i]).wf(),
        stages@.len() > 0 ==> forall|i: int| 0 <= i < r@.len() ==> !(#[trigger] r@[i]).empty(),
        forall|v: int|
            covers(r@, v) <==> exists|w: int|
                covers(initial@, w) && v == pipeline_value(stages@, w),
{
    let mut current = initial;
    let ghost init = current@;
    let n = stages.len();
    let mut k: usize = 0;
    while k < n
        invariant
            n == stages@.len(),
            all_stages_wf(stages@),
            k <= n,
            forall|i: int| 0 <= i < current@.len() ==> (#[trigger] current@[i]).wf(),
            k > 0 ==> forall|i: int| 0 <= i < current@.len() ==> !(#[trigger] current@[i]).empty(),
            forall|v: int|
                covers(current@, v) <==> exists|w: int|
                    covers(init, w) && v == pipeline_value(stages@.take(k as int), w),
        decreases n - k,
    {
        let ghost prev = current@;
        let next = stages[k].apply_all(&current);
        current = next;
        proof {
            assert forall|v: int|
                covers(current@, v) <==> exists|w: int|
                    covers(init, w) && v == pipeline_value(stages@.take(k + 1), w) by {
                if covers(current@, v) {
                    let u = choose|u: int|
                        covers(prev, u) && v == stage_value(stages@[k as int].maps@, u);
                    let w = choose|w: int|
                        covers(init, w) && u == pipeline_value(stages@.take(k as int), w);
                    lemma_pipeline_take_extend(stages@, k as int, w);
                    assert(v == pipeline_value(stages@.take(k + 1), w));
                }
                if exists|w: int| covers(init, w) && v == pipeline_value(stages@.take(k + 1), w) {
                    let w = choose|w: int|
                        covers(init, w) && v == pipeline_value(stages@.take(k + 1), w);
                    lemma_pipeline_take_extend(stages@, k as int, w);
                    let u = pipeline_value(stages@.take(k as int), w);
                    assert(covers(prev, u));
                    assert(covers(current@, stage_value(stages@[k as int].maps@, u)));
                }
            }
        }
        k = k + 1;
    }
    proof {
        assert(stages@.take(n as int) =~= stages@);
    }
    current
}

/// The least start value among the intervals the pipeline reaches from the
/// seed intervals.
///
/// Returns `EmptyInput` exactly when the seed intervals carry no value at
/// all; otherwise the result is the least reachable value.
pub fn minimum_reachable_start(initial: Vec<Interval>, stages: &Vec<AlmanacEntry>) -> (r: Result<
    u64,
    Error,
>)
    requires
        all_stages_wf(stages@),
        forall|i: int| 0 <= i < initial@.len() ==> (#[trigger] initial@[i]).wf(),
    ensures
        match r {
            Ok(m) => (exists|w: int|
                covers(initial@, w) && pipeline_value(stages@, w) == m) && forall|w: int|
                covers(initial@, w) ==> m <= #[trigger] pipeline_value(stages@, w),
            Err(e) => e == Error::EmptyInput && forall|w: int| !covers(initial@, w),
        },
{
    let ghost init = initial@;
    let finals = apply_pipeline(initial, stages);
    let mut best: Option<u64> = None;
    let n = finals.len();
    let mut j: usize = 0;
    while j < n
        invariant
            n == finals@.len(),
            forall|i: int| 0 <= i < finals@.len() ==> (#[trigger] finals@[i]).wf(),
            j <= n,
            match best {
                None => forall|i: int| 0 <= i < j ==> (#[trigger] finals@[i]).empty(),
                Some(b) => (exists|i: int|
                    0 <= i < j && !(#[trigger] finals@[i]).empty() && finals@[i].start == b)
                    && forall|i: int|
                    0 <= i < j && !(#[trigger] finals@[i]).empty() ==> b <= finals@[i].start,
            },
        decreases n - j,
    {
        let iv = finals[j];
        if iv.start < iv.end {
            match best {
                None => {
                    best = Some(iv.start);
                },
                Some(b) => {
                    if iv.start < b {
                        best = Some(iv.start);
                    }
                },
            }
        }
        j = j + 1;
    }
    proof {
        match best {
            None => {
                assert forall|w: int| !covers(init, w) by {
                    if covers(init, w) {
                        let v = pipeline_value(stages@, w);
                        assert(covers(finals@, v));
                        let i = choose|i: int| 0 <= i < finals@.len() && (#[trigger] finals@[i]).has(v);
                        assert(!finals@[i].empty());
                    }
                }
            },
            Some(b) => {
                let i = choose|i: int|
                    0 <= i < finals@.len() && !(#[trigger] finals@[i]).empty() && finals@[i].start
                        == b;
                assert(finals@[i].has(b as int));
                assert(covers(finals@, b as int));
                assert forall|w: int| covers(init, w) implies b <= #[trigger] pipeline_value(
                    stages@,
                    w,
                ) by {
                    let v = pipeline_value(stages@, w);
                    assert(covers(finals@, v));
                    let i2 = choose|i2: int|
                        0 <= i2 < finals@.len() && (#[trigger] finals@[i2]).has(v);
                    assert(!finals@[i2].empty());
                    assert(b <= finals@[i2].start);
                }
            },
        }
    }
    match best {
        Some(b) => Ok(b),
        None => Err(Error::EmptyInput),
    }
}

/// The map lists of a list of stages.
pub open spec fn maps_of(entries: Seq<AlmanacEntry>) -> Seq<Seq<RangeMap>> {
    entries.map_values(|e: AlmanacEntry| e.maps@)
}

/// The value `v` after a chain of stages given as plain map lists.
pub open spec fn maps_pipeline_value(chain: Seq<Seq<RangeMap>>, v: int) -> int
    decreases chain.len(),
{
    if chain.len() == 0 {
        v
    } else {
        maps_pipeline_value(chain.skip(1), stage_value(chain[0], v))
    }
}

/// The two pipeline readings agree: stages carry their maps.
pub proof fn lemma_pipeline_as_maps(entries: Seq<AlmanacEntry>, v: int)
    ensures
        pipeline_value(entries, v) == maps_pipeline_value(maps_of(entries), v),
    decreases entries.len(),
{
    if entries.len() > 0 {
        assert(maps_of(entries).skip(1) =~= maps_of(entries.skip(1)));
        assert(maps_of(entries)[0] == entries[0].maps@);
        lemma_pipeline_as_maps(entries.skip(1), stage_value(entries[0].maps@, v));
    }
}

/// The seed intervals a flat number list denotes, read in pairs of start
/// and length; `None` on an odd count or a range past `u64`.
pub open spec fn pair_ranges(vs: Seq<int>) -> Option<Seq<Interval>>
    decreases vs.len(),
{
    if vs.len() == 0 {
        Some(Seq::empty())
    } else if vs.len() == 1 {
        None
    } else if vs[0] + vs[1] > u64::MAX {
        None
    } else {
        match pair_ranges(vs.skip(2)) {
            None => None,
            Some(rest) => Some(
                seq![Interval { start: vs[0] as u64, end: (vs[0] + vs[1]) as u64 }] + rest,
            ),
        }
    }
}

/// The maps a raw triple list denotes, when every range fits in `u64`.
pub open spec fn conv_maps(ts: Seq<(int, int, int)>) -> Option<Seq<RangeMap>>
    decreases ts.len(),
{
    if ts.len() == 0 {
        Some(Seq::empty())
    } else {
        let t = ts[0];
        if t.1 + t.2 > u64::MAX || t.0 + t.2 > u64::MAX {
            None
        } else {
            match conv_maps(ts.skip(1)) {
                None => None,
                Some(rest) => Some(
                    seq![
                        RangeMap {
                            source_range: Interval {
                                start: t.1 as u64,
                                end: (t.1 + t.2) as u64,
                            },
                            destination_range: Interval {
                                start: t.0 as u64,
                                end: (t.0 + t.2) as u64,
                            },
                        },
                    ] + rest,
                ),
            }
        }
    }
}

/// The stages of the chain the indices pick out, with their maps built.
pub open spec fn conv_chain(
    raws: Seq<(Seq<u8>, Seq<u8>, Seq<(int, int, int)>)>,
    idx: Seq<int>,
) -> Option<Seq<Seq<RangeMap>>>
    decreases idx.len(),
{
    if idx.len() == 0 {
        Some(Seq::empty())
    } else if !(0 <= idx[0] < raws.len()) {
        None
    } else {
        match (conv_maps(raws[idx[0]].2), conv_chain(raws, idx.skip(1))) {
            (Some(ms), Some(rest)) => Some(seq![ms] + rest),
            _ => None,
        }
    }
}

/// The parsed model of the whole input: the seed intervals and the chain
/// of stages from `seed` to `location`, or `None` when the text does not
/// parse, holds trailing content, pairs unevenly, has a broken chain, or
/// names a range past `u64`.
pub open spec fn part2_model(s: Seq<u8>) -> Option<(Seq<Interval>, Seq<Seq<RangeMap>>)> {
    if !crate::text::has_prefix(s, 0, crate::day05_input::seeds_tag()) {
        None
    } else {
        match crate::day05_input::seed_nums(s, crate::day05_input::seeds_tag().len() as int) {
            None => None,
            Some((p, seeds)) => match pair_ranges(seeds) {
                None => None,
                Some(ivs) => {
                    let (e, raws) = crate::day05_input::entries_at(s, p);
                    if e != s.len() || raws.len() == 0 {
                        None
                    } else {
                        match crate::day05_input::chain_order(
                            crate::day05_input::raw_names(raws),
                            crate::day05_input::seed_name(),
                            (raws.len() + 1) as nat,
                        ) {
                            None => None,
                            Some(idx) => match conv_chain(raws, idx) {
                                None => None,
                                Some(chain) => Some((ivs, chain)),
                            },
                        }
                    }
                },
            },
        }
    }
}

/// Builds a map from one raw triple, rejecting ranges past `u64`.
pub fn parse_map(input: &[u8], from: usize) -> (r: Option<(usize, RangeMap)>)
    requires
        from <= input@.len(),
    ensures
        match r {
            Some((e, m)) => match crate::day05_input::map_at(input@, from as int) {
                Some((es, (d, src, l))) => e == es && src + l <= u64::MAX && d + l <= u64::MAX
                    && m == (RangeMap {
                    source_range: Interval { start: src as u64, end: (src + l) as u64 },
                    destination_range: Interval { start: d as u64, end: (d + l) as u64 },
                }) && m.wf(),
                None => false,
            },
            None => match crate::day05_input::map_at(input@, from as int) {
                Some((es, (d, src, l))) => src + l > u64::MAX || d + l > u64::MAX,
                None => true,
            },
        },
{
    match crate::day05_input::scan_map_triple(input, from) {
        None => None,
        Some((e, (d, src, l))) => match RangeMap::from_starts(d, src, l) {
            Ok(m) => Some((e, m)),
            Err(_) => None,
        },
    }
}

/// Reads the seed line as half-open seed intervals.
#[verifier::loop_isolation(false)]
pub fn parse_seeds(input: &[u8]) -> (r: Option<(usize, Vec<Interval>)>)
    ensures
        match r {
            Some((e, ivs)) => {
                &&& crate::text::has_prefix(input@, 0, crate::day05_input::seeds_tag())
                &&& match crate::day05_input::seed_nums(
                    input@,
                    crate::day05_input::seeds_tag().len() as int,
                ) {
                    Some((es, vs)) => e == es && pair_ranges(vs) == Some(ivs@) && (forall|i: int|
                        0 <= i < ivs@.len() ==> (#[trigger] ivs@[i]).wf()),
                    None => false,
                }
                &&& e <= input@.len()
            },
            None => !crate::text::has_prefix(input@, 0, crate::day05_input::seeds_tag())
                || match crate::day05_input::seed_nums(
                input@,
                crate::day05_input::seeds_tag().len() as int,
            ) {
                Some((es, vs)) => pair_ranges(vs) is None,
                None => true,
            },
        },
{
    let (e, nums) = match crate::day05_input::scan_seed_values(input) {
        None => {
            return None;
        },
        Some(x) => x,
    };
    let ghost vs = nums@.map_values(|x: u64| x as int);
    let mut ivs: Vec<Interval> = Vec::new();
    let n = nums.len();
    let mut i: usize = 0;
    proof {
        assert(vs.skip(0) =~= vs);
        match pair_ranges(vs) {
            Some(rest) => {
                assert(ivs@ + rest =~= rest);
            },
            None => {},
        }
    }
    while i < n
        invariant
            n == nums@.len(),
            vs == nums@.map_values(|x: u64| x as int),
            i <= n,
            i % 2 == 0,
            forall|j: int| 0 <= j < ivs@.len() ==> (#[trigger] ivs@[j]).wf(),
            match pair_ranges(vs.skip(i as int)) {
                Some(rest) => pair_ranges(vs) == Some(ivs@ + rest),
                None => pair_ranges(vs) is None,
            },
        decreases n - i,
    {
        proof {
            if i + 1 < n {
                assert(vs.skip(i as int)[0] == vs[i as int]);
                assert(vs.skip(i as int)[1] == vs[i + 1]);
                assert(vs.skip(i as int).skip(2) =~= vs.skip(i + 2));
            }
        }
        if i + 1 == n {
            return None;
        }
        let start = nums[i];
        let len = nums[i + 1];
        let end = match start.checked_add(len) {
            None => {
                return None;
            },
            Some(end) => end,
        };
        let ghost ivs0 = ivs@;
        ivs.push(Interval { start, end });
        proof {
            match pair_ranges(vs.skip(i + 2)) {
                Some(rest) => {
                    assert(pair_ranges(vs.skip(i as int)) == Some(
                        seq![ivs@[ivs@.len() - 1]] + rest,
                    ));
                    assert(ivs0 + (seq![ivs@[ivs@.len() - 1]] + rest) =~= ivs@ + rest);
                },
                None => {},
            }
        }
        i = i + 2;
    }
    proof {
        assert(vs.skip(n as int) =~= Seq::<int>::empty());
        assert(ivs@ + Seq::<Interval>::empty() =~= ivs@);
    }
    Some((e, ivs))
}

/// Converts one raw triple list into maps, rejecting ranges past `u64`.
fn convert_maps(ts: &Vec<(u64, u64, u64)>) -> (r: Option<Vec<RangeMap>>)
    ensures
        match r {
            Some(ms) => conv_maps(
                ts@.map_values(|t: (u64, u64, u64)| (t.0 as int, t.1 as int, t.2 as int)),
            ) == Some(ms@) && forall|i: int| 0 <= i < ms@.len() ==> (#[trigger] ms@[i]).wf(),
            None => conv_maps(
                ts@.map_values(|t: (u64, u64, u64)| (t.0 as int, t.1 as int, t.2 as int)),
            ) is None,
        },
{
    let ghost tv = ts@.map_values(|t: (u64, u64, u64)| (t.0 as int, t.1 as int, t.2 as int));
    let mut out: Vec<RangeMap> = Vec::new();
    let n = ts.len();
    let mut i: usize = 0;
    proof {
        assert(tv.skip(0) =~= tv);
        match conv_maps(tv) {
            Some(rest) => {
                assert(out@ + rest =~= rest);
            },
            None => {},
        }
    }
    while i < n
        invariant
            n == ts@.len(),
            tv == ts@.map_values(|t: (u64, u64, u64)| (t.0 as int, t.1 as int, t.2 as int)),
            i <= n,
            forall|j: int| 0 <= j < out@.len() ==> (#[trigger] out@[j]).wf(),
            match conv_maps(tv.skip(i as int)) {
                Some(rest) => conv_maps(tv) == Some(out@ + rest),
                None => conv_maps(tv) is None,
            },
        decreases n - i,
    {
        proof {
            assert(tv.skip(i as int)[0] == tv[i as int]);
            assert(tv.skip(i as int).skip(1) =~= tv.skip(i + 1));
        }
        let (d, src, l) = ts[i];
        let m = match RangeMap::from_starts(d, src, l) {
            Err(_) => {
                return None;
            },
            Ok(m) => m,
        };
        let ghost out0 = out@;
        out.push(m);
        proof {
            match conv_maps(tv.skip(i + 1)) {
                Some(rest) => {
                    assert(conv_maps(tv.skip(i as int)) == Some(
                        seq![out@[out@.len() - 1]] + rest,
                    ));
                    assert(out0 + (seq![out@[out@.len() - 1]] + rest) =~= out@ + rest);
                },
                None => {},
            }
        }
        i = i + 1;
    }
    proof {
        assert(tv.skip(n as int) =~= Seq::<(int, int, int)>::empty());
        assert(out@ + Seq::<RangeMap>::empty() =~= out@);
    }
    Some(out)
}

/// Splits every seed interval through the whole chain and returns the
/// reachable location intervals.
pub fn map_seed_range_to_location_ranges(seed_range: Interval, chain: &Vec<AlmanacEntry>) -> (r:
    Vec<Interval>)
    requires
        seed_range.wf(),
        all_stages_wf(chain@),
    ensures
        forall|i: int| 0 <= i < r@.len() ==> (#[trigger] r@[i]).wf(),
        forall|v: int|
            covers(r@, v) <==> exists|w: int|
                seed_range.has(w) && v == pipeline_value(chain@, w),
{
    let mut initial: Vec<Interval> = Vec::new();
    proof {
        lemma_covers_push(initial@, seed_range);
    }
    initial.push(seed_range);
    apply_pipeline(initial, chain)
}

/// The least location reachable from any seed interval of the almanac.
///
/// `BadInput` comes exactly when the text does not parse as an almanac of
/// seed ranges; `EmptyInput` when it parses but the seed intervals carry
/// no value at all.  An `Ok` result is the least value the chain can
/// reach from a seed value.
#[verifier::loop_isolation(false)]
pub fn process(input: &[u8]) -> (r: Result<u64, Error>)
    ensures
        match r {
            Ok(m) => match part2_model(input@) {
                Some((ivs, chain)) => (exists|w: int|
                    covers(ivs, w) && maps_pipeline_value(chain, w) == m) && forall|w: int|
                    covers(ivs, w) ==> m <= #[trigger] maps_pipeline_value(chain, w),
                None => false,
            },
            Err(e) => (e == Error::BadInput && part2_model(input@) is None) || (e
                == Error::EmptyInput && match part2_model(input@) {
                Some((ivs, chain)) => forall|w: int| !covers(ivs, w),
                None => false,
            }),
        },
{
    let (p, seed_ranges) = match parse_seeds(input) {
        None => {
            return Err(Error::BadInput);
        },
        Some(x) => x,
    };
    let (e, raws) = crate::day05_input::scan_entries(input, p);
    if e != input.len() || raws.len() == 0 {
        return Err(Error::BadInput);
    }
    proof {
        crate::day05_input::lemma_entries_count(input@, p as int);
        crate::day05_input::lemma_names_agree(raws@);
        crate::day05_part1::lemma_seed_count(input@, crate::day05_input::seeds_tag().len() as int);
    }
    let idx = match crate::day05_input::order_chain(&raws) {
        None => {
            return Err(Error::BadInput);
        },
        Some(idx) => idx,
    };
    let ghost rawsv = crate::day05_input::raws_view(raws@);
    let ghost idxv = idx@.map_values(|x: usize| x as int);
    let mut chain: Vec<AlmanacEntry> = Vec::new();
    let n = idx.len();
    let mut k: usize = 0;
    proof {
        assert(idxv.skip(0) =~= idxv);
        match conv_chain(rawsv, idxv) {
            Some(rest) => {
                assert(maps_of(chain@) + rest =~= rest);
            },
            None => {},
        }
    }
    while k < n
        invariant
            k <= n,
            forall|j: int| 0 <= j < chain@.len() ==> (#[trigger] chain@[j]).wf(),
            match conv_chain(rawsv, idxv.skip(k as int)) {
                Some(rest) => conv_chain(rawsv, idxv) == Some(maps_of(chain@) + rest),
                None => conv_chain(rawsv, idxv) is None,
            },
        decreases n - k,
    {
        proof {
            assert(idxv.skip(k as int)[0] == idxv[k as int]);
            assert(idxv.skip(k as int).skip(1) =~= idxv.skip(k + 1));
            assert(rawsv[idxv[k as int]] == crate::day05_input::raw_view(
                raws@[idx@[k as int] as int],
            ));
        }
        let i = idx[k];
        let ms = match convert_maps(&raws[i].maps) {
            None => {
                proof {
                    assert(conv_chain(rawsv, idxv) is None);
                }
                return Err(Error::BadInput);
            },
            Some(ms) => ms,
        };
        let ghost chain0 = chain@;
        let entry = AlmanacEntry { from: raws[i].from.clone(), to: raws[i].to.clone(), maps: ms };
        chain.push(entry);
        proof {
            assert(maps_of(chain@) =~= maps_of(chain0).push(chain@[chain@.len() - 1].maps@));
            match conv_chain(rawsv, idxv.skip(k + 1)) {
                Some(rest) => {
                    assert(conv_chain(rawsv, idxv.skip(k as int)) == Some(
                        seq![chain@[chain@.len() - 1].maps@] + rest,
                    ));
                    assert(maps_of(chain0) + (seq![chain@[chain@.len() - 1].maps@] + rest)
                        =~= maps_of(chain@) + rest);
                },
                None => {},
            }
        }
        k = k + 1;
    }
    proof {
        assert(idxv.skip(n as int) =~= Seq::<int>::empty());
        assert(maps_of(chain@) + Seq::<Seq<RangeMap>>::empty() =~= maps_of(chain@));
    }
    let ghost chainspec = maps_of(chain@);
    let ghost ivs = seed_ranges@;
    let out = minimum_reachable_start(seed_ranges, &chain);
    proof {
        assert forall|w: int|
            #[trigger] pipeline_value(chain@, w) == maps_pipeline_value(chainspec, w) by {
            lemma_pipeline_as_maps(chain@, w);
        }
        match part2_model(input@) {
            Some((mivs, mchain)) => {
                assert(mivs == ivs);
                assert(mchain == chainspec);
            },
            None => {
                assert(false);
            },
        }
        match out {
            Ok(m) => {
                let w = choose|w: int|
                    covers(ivs, w) && #[trigger] pipeline_value(chain@, w) == m as int;
                assert(maps_pipeline_value(chainspec, w) == m as int);
                assert(exists|w2: int|
                    covers(ivs, w2) && maps_pipeline_value(chainspec, w2) == m as int);
                assert forall|w2: int| covers(ivs, w2) implies m as int
                    <= #[trigger] maps_pipeline_value(chainspec, w2) by {
                    assert(m <= pipeline_value(chain@, w2));
                }
            },
            Err(e) => {},
        }
    }
    match out {
        Ok(m) => Ok(m),
        Err(e) => Err(e),
    }
}

} // verus!
