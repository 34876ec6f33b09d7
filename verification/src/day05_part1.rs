//! Value remapping: each almanac stage sends a single number through its
//! first matching map, and the answer is the least location any seed
//! reaches.

use vstd::prelude::*;
use crate::Error;
use crate::day05_input::{
    chain_order, entries_at, map_at, name_at, order_chain,
    raws_view, scan_entries, scan_map_triple, scan_name, scan_seed_values, seed_name, seed_nums,
    seeds_tag};
use crate::text::{digits_end, has_prefix, lemma_digits_end, lemma_spaces_end, spaces_end};

verus! {

/// One map line: values in `[source_start, source_start + length)` move to
/// the destination range at the same offset.
#[derive(Clone, Copy, Debug, PartialEq, Eq)]
pub struct RangeMap {
    pub source_start: u64,
    pub destination_start: u64,
    pub length: u64,
}

impl RangeMap {
    /// Well-formed: both ranges fit in `u64`.
    pub open spec fn wf(self) -> bool {
        self.source_start + self.length <= u64::MAX && self.destination_start + self.length
            <= u64::MAX
    }

    /// Whether the map's source range holds `v`.
    pub open spec fn in_source(self, v: int) -> bool {
        self.source_start <= v < self.source_start + self.length
    }

    /// The destination value of a source value `v`.
    pub open spec fn translate(self, v: int) -> int {
        self.destination_start + (v - self.source_start)
    }

    /// The destination value when the source range holds `value`.
    pub fn apply(&self, value: u64) -> (r: Option<u64>)
        requires
            self.wf(),
        ensures
            self.in_source(value as int) ==> r == Some((self.translate(value as int)) as u64),
            !self.in_source(value as int) ==> r is None,
    {
        if self.source_start <= value && value - self.source_start < self.length {
            Some(self.destination_start + (value - self.source_start))
        } else {
            None
        }
    }
}

/// The value `v` after one stage: the first map whose source holds it
/// translates it, and a value no source holds passes through unchanged.
pub open spec fn entry_value(maps: Seq<RangeMap>, v: int) -> int
    decreases maps.len(),
{
    if maps.len() == 0 {
        v
    } else if maps[0].in_source(v) {
        maps[0].translate(v)
    } else {
        entry_value(maps.skip(1), v)
    }
}

/// One named transformation stage of the almanac.
#[derive(Clone, Debug)]
pub struct AlmanacEntry {
    pub from: Vec<u8>,
    pub to: Vec<u8>,
    pub maps: Vec<RangeMap>,
}

impl AlmanacEntry {
    /// Well-formed: every map of the stage is well-formed.
    pub open spec fn wf(self) -> bool {
        forall|i: int| 0 <= i < self.maps@.len() ==> (#[trigger] self.maps@[i]).wf()
    }

    /// Sends `value` through the first map whose source holds it; a value
    /// no source holds passes through unchanged.
    pub fn apply(&self, value: u64) -> (r: u64)
        requires
            self.wf(),
        ensures
            r as int == entry_value(self.maps@, value as int),
    {
        let ghost maps = self.maps@;
        let n = self.maps.len();
        let mut i: usize = 0;
        proof {
            assert(maps.skip(0) =~= maps);
        }
        while i < n
            invariant
                n == maps.len(),
                maps == self.maps@,
                self.wf(),
                i <= n,
                entry_value(maps, value as int) == entry_value(maps.skip(i as int), value as int),
            decreases n - i,
        {
            proof {
                assert(maps.skip(i as int)[0] == maps[i as int]);
                assert(maps.skip(i as int).skip(1) =~= maps.skip(i + 1));
            }
            let m = self.maps[i];
            match m.apply(value) {
                Some(out) => {
                    return out;
                },
                None => {},
            }
            i = i + 1;
        }
        proof {
            assert(maps.skip(n as int) =~= Seq::<RangeMap>::empty());
        }
        value
    }
}

/// The map lists of a list of stages.
pub open spec fn maps_of(entries: Seq<AlmanacEntry>) -> Seq<Seq<RangeMap>> {
    entries.map_values(|e: AlmanacEntry| e.maps@)
}

/// The value `v` after every stage of the chain in order.
pub open spec fn chain_value(chain: Seq<Seq<RangeMap>>, v: int) -> int
    decreases chain.len(),
{
    if chain.len() == 0 {
        v
    } else {
        chain_value(chain.skip(1), entry_value(chain[0], v))
    }
}

proof fn lemma_chain_value_take_extend(chain: Seq<Seq<RangeMap>>, k: int, w: int)
    requires
        0 <= k < chain.len(),
    ensures
        chain_value(chain.take(k + 1), w) == entry_value(chain[k], chain_value(chain.take(k), w)),
    decreases k,
{
    let sv = entry_value(chain[0], w);
    if k == 0 {
        assert(chain.take(1).skip(1) =~= Seq::<Seq<RangeMap>>::empty());
        assert(chain.take(1)[0] == chain[0]);
        assert(chain.take(0) =~= Seq::<Seq<RangeMap>>::empty());
        assert(chain_value(Seq::<Seq<RangeMap>>::empty(), sv) == sv);
        assert(chain_value(chain.take(1), w) == chain_value(
            chain.take(1).skip(1),
            entry_value(chain.take(1)[0], w),
        ));
    } else {
        assert(chain.take(k + 1).skip(1) =~= chain.skip(1).take(k));
        assert(chain.take(k).skip(1) =~= chain.skip(1).take(k - 1));
        assert(chain.skip(1)[k - 1] == chain[k]);
        assert(chain.take(k + 1)[0] == chain[0]);
        assert(chain.take(k)[0] == chain[0]);
        lemma_chain_value_take_extend(chain.skip(1), k - 1, sv);
        assert(chain_value(chain.take(k + 1), w) == chain_value(chain.skip(1).take(k), sv));
        assert(chain_value(chain.take(k), w) == chain_value(chain.skip(1).take(k - 1), sv));
    }
}

/// Sends a seed through every stage of the ordered chain.
pub fn map_seed_to_location(seed: u64, chain: &Vec<AlmanacEntry>) -> (r: u64)
    requires
        forall|i: int| 0 <= i < chain@.len() ==> (#[trigger] chain@[i]).wf(),
    ensures
        r as int == chain_value(maps_of(chain@), seed as int),
{
    let ghost cm = maps_of(chain@);
    let n = chain.len();
    let mut value = seed;
    let mut k: usize = 0;
    while k < n
        invariant
            n == chain@.len(),
            cm == maps_of(chain@),
            forall|i: int| 0 <= i < chain@.len() ==> (#[trigger] chain@[i]).wf(),
            k <= n,
            value as int == chain_value(cm.take(k as int), seed as int),
        decreases n - k,
    {
        proof {
            lemma_chain_value_take_extend(cm, k as int, seed as int);
            assert(cm[k as int] == chain@[k as int].maps@);
        }
        value = chain[k].apply(value);
        k = k + 1;
    }
    proof {
        assert(cm.take(n as int) =~= cm);
    }
    value
}

/// The maps a raw triple list denotes, when every range fits in `u64`.
pub open spec fn conv_maps(ts: Seq<(int, int, int)>) -> Option<Seq<RangeMap>>
    decreases ts.len(),
{
    if ts.len() == 0 {
        Some(Seq::empty())
    } else {
        let t = ts[0];
        if t.1 + t.2 > u64::MAX || t.0 + t.2 > u64::MAX {
            None
        } else {
            match conv_maps(ts.skip(1)) {
                None => None,
                Some(rest) => Some(
                    seq![
                        RangeMap {
                            source_start: t.1 as u64,
                            destination_start: t.0 as u64,
                            length: t.2 as u64,
                        },
                    ] + rest,
                ),
            }
        }
    }
}

pub proof fn lemma_conv_maps_wf(ts: Seq<(int, int, int)>)
    requires
        forall|i: int|
            0 <= i < ts.len() ==> 0 <= (#[trigger] ts[i]).0 && 0 <= ts[i].1 && 0 <= ts[i].2,
    ensures
        match conv_maps(ts) {
            Some(ms) => forall|i: int| 0 <= i < ms.len() ==> (#[trigger] ms[i]).wf(),
            None => true,
        },
    decreases ts.len(),
{
    if ts.len() > 0 {
        assert(forall|i: int| 0 <= i < ts.skip(1).len() ==> #[trigger] ts.skip(1)[i] == ts[i + 1]);
        lemma_conv_maps_wf(ts.skip(1));
        let t = ts[0];
        if !(t.1 + t.2 > u64::MAX || t.0 + t.2 > u64::MAX) {
            match conv_maps(ts.skip(1)) {
                Some(rest) => {
                    let m0 = RangeMap {
                        source_start: t.1 as u64,
                        destination_start: t.0 as u64,
                        length: t.2 as u64,
                    };
                    assert(m0.wf());
                    assert(forall|i: int|
                        1 <= i < (seq![m0] + rest).len() ==> #[trigger] (seq![m0] + rest)[i]
                            == rest[i - 1]);
                },
                None => {},
            }
        }
    }
}

/// Converts one raw triple list into maps, rejecting ranges past `u64`.
fn convert_maps(ts: &Vec<(u64, u64, u64)>) -> (r: Option<Vec<RangeMap>>)
    ensures
        match r {
            Some(ms) => conv_maps(
                ts@.map_values(|t: (u64, u64, u64)| (t.0 as int, t.1 as int, t.2 as int)),
            ) == Some(ms@) && forall|i: int| 0 <= i < ms@.len() ==> (#[trigger] ms@[i]).wf(),
            None => conv_maps(
                ts@.map_values(|t: (u64, u64, u64)| (t.0 as int, t.1 as int, t.2 as int)),
            ) is None,
        },
{
    let ghost tv = ts@.map_values(|t: (u64, u64, u64)| (t.0 as int, t.1 as int, t.2 as int));
    let mut out: Vec<RangeMap> = Vec::new();
    let n = ts.len();
    let mut i: usize = 0;
    proof {
        assert(tv.skip(0) =~= tv);
        match conv_maps(tv) {
            Some(rest) => {
                assert(out@ + rest =~= rest);
            },
            None => {},
        }
    }
    while i < n
        invariant
            n == ts@.len(),
            tv == ts@.map_values(|t: (u64, u64, u64)| (t.0 as int, t.1 as int, t.2 as int)),
            i <= n,
            forall|j: int| 0 <= j < out@.len() ==> (#[trigger] out@[j]).wf(),
            match conv_maps(tv.skip(i as int)) {
                Some(rest) => conv_maps(tv) == Some(out@ + rest),
                None => conv_maps(tv) is None,
            },
        decreases n - i,
    {
        proof {
            assert(tv.skip(i as int)[0] == tv[i as int]);
            assert(tv.skip(i as int).skip(1) =~= tv.skip(i + 1));
        }
        let (d, src, l) = ts[i];
        let s_end = src.checked_add(l);
        let d_end = d.checked_add(l);
        if s_end.is_none() || d_end.is_none() {
            return None;
        }
        let ghost out0 = out@;
        out.push(RangeMap { source_start: src, destination_start: d, length: l });
        proof {
            match conv_maps(tv.skip(i + 1)) {
                Some(rest) => {
                    assert(conv_maps(tv.skip(i as int)) == Some(
                        seq![out@[out@.len() - 1]] + rest,
                    ));
                    assert(out0 + (seq![out@[out@.len() - 1]] + rest) =~= out@ + rest);
                },
                None => {},
            }
        }
        i = i + 1;
    }
    proof {
        assert(tv.skip(n as int) =~= Seq::<(int, int, int)>::empty());
        assert(out@ + Seq::<RangeMap>::empty() =~= out@);
    }
    Some(out)
}

/// The stages a raw stage list denotes, when every range fits in `u64`.
pub open spec fn conv_entries(raws: Seq<(Seq<u8>, Seq<u8>, Seq<(int, int, int)>)>) -> Option<
    Seq<Seq<RangeMap>>,
>
    decreases raws.len(),
{
    if raws.len() == 0 {
        Some(Seq::empty())
    } else {
        match (conv_maps(raws[0].2), conv_entries(raws.skip(1))) {
            (Some(ms), Some(rest)) => Some(seq![ms] + rest),
            _ => None,
        }
    }
}

/// Reads the seed line: the tag and the seed numbers.
pub fn parse_seeds(input: &[u8]) -> (r: Option<(usize, Vec<u64>)>)
    ensures
        match r {
            Some((e, v)) => has_prefix(input@, 0, seeds_tag()) && seed_nums(
                input@,
                seeds_tag().len() as int,
            ) == Some((e as int, v@.map_values(|x: u64| x as int))) && e <= input@.len(),
            None => !has_prefix(input@, 0, seeds_tag()) || seed_nums(
                input@,
                seeds_tag().len() as int,
            ) is None,
        },
{
    scan_seed_values(input)
}

/// Reads one map line after any run of line endings.
pub fn parse_map(input: &[u8], from: usize) -> (r: Option<(usize, RangeMap)>)
    requires
        from <= input@.len(),
    ensures
        match r {
            Some((e, m)) => match map_at(input@, from as int) {
                Some((es, (d, src, l))) => e == es && src + l <= u64::MAX && d + l <= u64::MAX
                    && m == (RangeMap {
                    source_start: src as u64,
                    destination_start: d as u64,
                    length: l as u64,
                }) && m.wf(),
                None => false,
            },
            None => match map_at(input@, from as int) {
                Some((es, (d, src, l))) => src + l > u64::MAX || d + l > u64::MAX,
                None => true,
            },
        },
{
    match scan_map_triple(input, from) {
        None => None,
        Some((e, (d, src, l))) => {
            let s_end = src.checked_add(l);
            let d_end = d.checked_add(l);
            match (s_end, d_end) {
                (Some(_), Some(_)) => Some(
                    (e, RangeMap { source_start: src, destination_start: d, length: l }),
                ),
                _ => None,
            }
        },
    }
}

/// Reads the stage name pair `one-to-other`.
pub fn parse_almanac_name(input: &[u8], from: usize) -> (r: Option<(usize, Vec<u8>, Vec<u8>)>)
    requires
        from <= input@.len(),
    ensures
        match r {
            Some((e, nf, nt)) => name_at(input@, from as int) == Some((e as int, (nf@, nt@))) && e
                <= input@.len(),
            None => name_at(input@, from as int) is None,
        },
{
    scan_name(input, from)
}

/// Reads one almanac stage, converting its maps; rejects ranges past `u64`.
pub fn parse_almanac_entry(input: &[u8], from: usize) -> (r: Option<(usize, AlmanacEntry)>)
    requires
        from <= input@.len(),
    ensures
        match r {
            Some((e, entry)) => match crate::day05_input::entry_at(input@, from as int) {
                Some((es, (nf, nt, ts))) => e == es && entry.from@ == nf && entry.to@ == nt
                    && conv_maps(ts) == Some(entry.maps@) && entry.wf() && from < e
                    <= input@.len(),
                None => false,
            },
            None => match crate::day05_input::entry_at(input@, from as int) {
                Some((es, (nf, nt, ts))) => conv_maps(ts) is None,
                None => true,
            },
        },
{
    match crate::day05_input::scan_entry(input, from) {
        None => None,
        Some((e, raw)) => {
            proof {
                lemma_conv_maps_wf(
                    raw.maps@.map_values(
                        |t: (u64, u64, u64)| (t.0 as int, t.1 as int, t.2 as int),
                    ),
                );
            }
            match convert_maps(&raw.maps) {
                None => None,
                Some(ms) => Some((e, AlmanacEntry { from: raw.from, to: raw.to, maps: ms })),
            }
        },
    }
}

/// The stages of the chain the indices pick out, with their maps built.
pub open spec fn conv_chain(
    raws: Seq<(Seq<u8>, Seq<u8>, Seq<(int, int, int)>)>,
    idx: Seq<int>,
) -> Option<Seq<Seq<RangeMap>>>
    decreases idx.len(),
{
    if idx.len() == 0 {
        Some(Seq::empty())
    } else if !(0 <= idx[0] < raws.len()) {
        None
    } else {
        match (conv_maps(raws[idx[0]].2), conv_chain(raws, idx.skip(1))) {
            (Some(ms), Some(rest)) => Some(seq![ms] + rest),
            _ => None,
        }
    }
}

/// The smaller of two values.
pub open spec fn min2(a: int, b: int) -> int {
    if a <= b {
        a
    } else {
        b
    }
}

/// The least location any of the seeds reaches through the chain.
pub open spec fn min_loc(chain: Seq<Seq<RangeMap>>, seeds: Seq<int>) -> int
    recommends
        seeds.len() >= 1,
    decreases seeds.len(),
{
    let v = chain_value(chain, seeds[0]);
    if seeds.len() <= 1 {
        v
    } else {
        min2(v, min_loc(chain, seeds.skip(1)))
    }
}

pub proof fn lemma_seed_count(s: Seq<u8>, from: int)
    requires
        0 <= from <= s.len(),
    ensures
        match seed_nums(s, from) {
            Some((e, vs)) => vs.len() >= 1 && from < e && (forall|i: int|
                0 <= i < vs.len() ==> 0 <= #[trigger] vs[i] <= u64::MAX),
            None => true,
        },
    decreases s.len() - from,
{
    lemma_digits_end(s, from);
    lemma_spaces_end(s, digits_end(s, from));
    match crate::day05_input::num_at(s, from) {
        None => {},
        Some((e, v)) => {
            crate::text::lemma_num_value_nonneg(s, from, e);
            let p = spaces_end(s, e);
            if p > e && digits_end(s, p) > p {
                lemma_seed_count(s, p);
            }
        },
    }
}

/// The answer of the puzzle for the whole input text: the least location
/// reachable from any seed, or `None` when the text does not parse, holds
/// trailing content, has a broken stage chain, or names a range past `u64`.
pub open spec fn part1_answer(s: Seq<u8>) -> Option<int> {
    if !has_prefix(s, 0, seeds_tag()) {
        None
    } else {
        match seed_nums(s, seeds_tag().len() as int) {
            None => None,
            Some((p, seeds)) => {
                let (e, raws) = entries_at(s, p);
                if e != s.len() || raws.len() == 0 {
                    None
                } else {
                    match chain_order(
                        crate::day05_input::raw_names(raws),
                        seed_name(),
                        (raws.len() + 1) as nat,
                    ) {
                        None => None,
                        Some(idx) => match conv_chain(raws, idx) {
                            None => None,
                            Some(chain) => Some(min_loc(chain, seeds)),
                        },
                    }
                }
            },
        }
    }
}

/// The least location any seed of the almanac text reaches.
///
/// `BadInput` comes exactly when the text does not parse as an almanac,
/// holds trailing content, has a broken stage chain, or names a range
/// whose end does not fit `u64`.
#[verifier::loop_isolation(false)]
pub fn process(input: &[u8]) -> (r: Result<u64, Error>)
    ensures
        match r {
            Ok(m) => part1_answer(input@) == Some(m as int),
            Err(e) => e == Error::BadInput && part1_answer(input@) is None,
        },
{
    let (p, seeds) = match parse_seeds(input) {
        None => {
            return Err(Error::BadInput);
        },
        Some(x) => x,
    };
    proof {
        lemma_seed_count(input@, seeds_tag().len() as int);
    }
    let (e, raws) = scan_entries(input, p);
    if e != input.len() || raws.len() == 0 {
        return Err(Error::BadInput);
    }
    proof {
        crate::day05_input::lemma_entries_count(input@, p as int);
        crate::day05_input::lemma_names_agree(raws@);
    }
    let idx = match crate::day05_input::order_chain(&raws) {
        None => {
            return Err(Error::BadInput);
        },
        Some(idx) => idx,
    };
    let ghost rawsv = raws_view(raws@);
    let ghost idxv = idx@.map_values(|x: usize| x as int);
    let mut chain: Vec<AlmanacEntry> = Vec::new();
    let n = idx.len();
    let mut k: usize = 0;
    proof {
        assert(idxv.skip(0) =~= idxv);
        match conv_chain(rawsv, idxv) {
            Some(rest) => {
                assert(maps_of(chain@) + rest =~= rest);
            },
            None => {},
        }
    }
    while k < n
        invariant
            n == idx@.len(),
            idxv == idx@.map_values(|x: usize| x as int),
            rawsv == raws_view(raws@),
            forall|t: int| 0 <= t < idx@.len() ==> #[trigger] idx@[t] < raws@.len(),
            k <= n,
            forall|j: int| 0 <= j < chain@.len() ==> (#[trigger] chain@[j]).wf(),
            match conv_chain(rawsv, idxv.skip(k as int)) {
                Some(rest) => conv_chain(rawsv, idxv) == Some(maps_of(chain@) + rest),
                None => conv_chain(rawsv, idxv) is None,
            },
        decreases n - k,
    {
        proof {
            assert(idxv.skip(k as int)[0] == idxv[k as int]);
            assert(idxv.skip(k as int).skip(1) =~= idxv.skip(k + 1));
            assert(rawsv[idxv[k as int]] == crate::day05_input::raw_view(
                raws@[idx@[k as int] as int],
            ));
        }
        let i = idx[k];
        proof {
            lemma_conv_maps_wf(
                raws@[i as int].maps@.map_values(
                    |t: (u64, u64, u64)| (t.0 as int, t.1 as int, t.2 as int),
                ),
            );
        }
        let ms = match convert_maps(&raws[i].maps) {
            None => {
                proof {
                    assert(conv_chain(rawsv, idxv.skip(k as int)) is None);
                    assert(conv_chain(rawsv, idxv) is None);
                    crate::day05_input::lemma_names_agree(raws@);
                    assert(rawsv.len() == raws@.len());
                    assert(chain_order(
                        crate::day05_input::raw_names(rawsv),
                        seed_name(),
                        (rawsv.len() + 1) as nat,
                    ) == Some(idxv));
                }
                return Err(Error::BadInput);
            },
            Some(ms) => ms,
        };
        let ghost chain0 = chain@;
        let entry = AlmanacEntry { from: raws[i].from.clone(), to: raws[i].to.clone(), maps: ms };
        chain.push(entry);
        proof {
            assert(maps_of(chain@) =~= maps_of(chain0).push(chain@[chain@.len() - 1].maps@));
            match conv_chain(rawsv, idxv.skip(k + 1)) {
                Some(rest) => {
                    assert(conv_chain(rawsv, idxv.skip(k as int)) == Some(
                        seq![chain@[chain@.len() - 1].maps@] + rest,
                    ));
                    assert(maps_of(chain0) + (seq![chain@[chain@.len() - 1].maps@] + rest)
                        =~= maps_of(chain@) + rest);
                },
                None => {},
            }
        }
        k = k + 1;
    }
    proof {
        assert(idxv.skip(n as int) =~= Seq::<int>::empty());
        assert(maps_of(chain@) + Seq::<Seq<RangeMap>>::empty() =~= maps_of(chain@));
    }
    let ghost chainspec = maps_of(chain@);
    let ghost seedsv = seeds@.map_values(|x: u64| x as int);
    let mut best = map_seed_to_location(seeds[0], &chain);
    let ns = seeds.len();
    let mut j: usize = 1;
    proof {
        assert(seedsv[0] == seeds@[0] as int);
        if ns > 1 {
            assert(min_loc(chainspec, seedsv) == min2(
                chain_value(chainspec, seedsv[0]),
                min_loc(chainspec, seedsv.skip(1)),
            ));
        }
    }
    while j < ns
        invariant
            ns == seeds@.len() >= 1,
            seedsv == seeds@.map_values(|x: u64| x as int),
            chainspec == maps_of(chain@),
            forall|i: int| 0 <= i < chain@.len() ==> (#[trigger] chain@[i]).wf(),
            1 <= j <= ns,
            j < ns ==> min_loc(chainspec, seedsv) == min2(
                best as int,
                min_loc(chainspec, seedsv.skip(j as int)),
            ),
            j == ns ==> min_loc(chainspec, seedsv) == best as int,
        decreases ns - j,
    {
        proof {
            assert(seedsv.skip(j as int)[0] == seedsv[j as int]);
            assert(seedsv.skip(j as int).skip(1) =~= seedsv.skip(j + 1));
        }
        let candidate = map_seed_to_location(seeds[j], &chain);
        if candidate < best {
            best = candidate;
        }
        j = j + 1;
    }
    proof {
        crate::day05_input::lemma_names_agree(raws@);
        assert(seed_nums(input@, seeds_tag().len() as int) == Some((p as int, seedsv)));
        assert(entries_at(input@, p as int).0 == e as int);
        assert(entries_at(input@, p as int).1 == rawsv);
        assert(rawsv.len() == raws@.len());
        assert(chain_order(
            crate::day05_input::raw_names(rawsv),
            seed_name(),
            (rawsv.len() + 1) as nat,
        ) == Some(idxv));
        assert(conv_chain(rawsv, idxv) == Some(chainspec));
        assert(min_loc(chainspec, seedsv) == best as int);
    }
    Ok(best)
}

} // verus!
