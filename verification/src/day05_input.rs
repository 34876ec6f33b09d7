//! The almanac text format shared by both range-remapping puzzles: a seed
//! line, then named stages of `destination source length` map lines.

use vstd::prelude::*;
use crate::text::{
    alpha_end, digits_end, has_prefix, lemma_alpha_end, lemma_digits_end, lemma_newlines_end,
    lemma_spaces_end, match_prefix, newlines_end, num_value, scan_alpha, scan_u64, skip_newlines,
    skip_spaces, spaces_end, copy_range,
};

verus! {

/// The bytes of the tag `seeds: `.
pub open spec fn seeds_tag() -> Seq<u8> {
    seq![
        ('s' as u8),
        ('e' as u8),
        ('e' as u8),
        ('d' as u8),
        ('s' as u8),
        (':' as u8),
        (' ' as u8),
    ]
}

/// The bytes of the tag `-to-`.
pub open spec fn to_tag() -> Seq<u8> {
    seq![('-' as u8), ('t' as u8), ('o' as u8), ('-' as u8)]
}

/// The bytes of the tag ` map:`.
pub open spec fn map_tag() -> Seq<u8> {
    seq![(' ' as u8), ('m' as u8), ('a' as u8), ('p' as u8), (':' as u8)]
}

/// The bytes of the name `seed`.
pub open spec fn seed_name() -> Seq<u8> {
    seq![('s' as u8), ('e' as u8), ('e' as u8), ('d' as u8)]
}

/// The bytes of the name `location`.
pub open spec fn location_name() -> Seq<u8> {
    seq![
        ('l' as u8),
        ('o' as u8),
        ('c' as u8),
        ('a' as u8),
        ('t' as u8),
        ('i' as u8),
        ('o' as u8),
        ('n' as u8),
    ]
}

/// Builds the tag `seeds: ` as bytes.
pub fn seeds_tag_bytes() -> (r: Vec<u8>)
    ensures
        r@ =~= seeds_tag(),
{
    let mut v: Vec<u8> = Vec::new();
    v.push('s' as u8);
    v.push('e' as u8);
    v.push('e' as u8);
    v.push('d' as u8);
    v.push('s' as u8);
    v.push(':' as u8);
    v.push(' ' as u8);
    v
}

/// Builds the tag `-to-` as bytes.
pub fn to_tag_bytes() -> (r: Vec<u8>)
    ensures
        r@ =~= to_tag(),
{
    let mut v: Vec<u8> = Vec::new();
    v.push('-' as u8);
    v.push('t' as u8);
    v.push('o' as u8);
    v.push('-' as u8);
    v
}

/// Builds the tag ` map:` as bytes.
pub fn map_tag_bytes() -> (r: Vec<u8>)
    ensures
        r@ =~= map_tag(),
{
    let mut v: Vec<u8> = Vec::new();
    v.push(' ' as u8);
    v.push('m' as u8);
    v.push('a' as u8);
    v.push('p' as u8);
    v.push(':' as u8);
    v
}

/// Builds the name `seed` as bytes.
pub fn seed_name_bytes() -> (r: Vec<u8>)
    ensures
        r@ =~= seed_name(),
{
    let mut v: Vec<u8> = Vec::new();
    v.push('s' as u8);
    v.push('e' as u8);
    v.push('e' as u8);
    v.push('d' as u8);
    v
}

/// Builds the name `location` as bytes.
pub fn location_name_bytes() -> (r: Vec<u8>)
    ensures
        r@ =~= location_name(),
{
    let mut v: Vec<u8> = Vec::new();
    v.push('l' as u8);
    v.push('o' as u8);
    v.push('c' as u8);
    v.push('a' as u8);
    v.push('t' as u8);
    v.push('i' as u8);
    v.push('o' as u8);
    v.push('n' as u8);
    v
}

/// The number starting exactly at `from`: its end and value, or `None`
/// when no digit stands there or the value does not fit `u64`.
pub open spec fn num_at(s: Seq<u8>, from: int) -> Option<(int, int)>
    recommends
        0 <= from <= s.len(),
{
    let e = digits_end(s, from);
    if e == from || num_value(s, from, e) > u64::MAX {
        None
    } else {
        Some((e, num_value(s, from, e)))
    }
}

/// The run of blank-separated numbers starting at `from`: the end of the
/// run and the values, or `None` when no number starts there.
pub open spec fn seed_nums(s: Seq<u8>, from: int) -> Option<(int, Seq<int>)>
    decreases s.len() - from via seed_nums_decreases
{
    if 0 <= from <= s.len() {
        match num_at(s, from) {
            None => None,
            Some((e, v)) => {
                let p = spaces_end(s, e);
                if p > e && digits_end(s, p) > p {
                    match seed_nums(s, p) {
                        None => None,
                        Some((e2, rest)) => Some((e2, seq![v] + rest)),
                    }
                } else {
                    Some((e, seq![v]))
                }
            },
        }
    } else {
        None
    }
}

#[via_fn]
proof fn seed_nums_decreases(s: Seq<u8>, from: int) {
    if 0 <= from <= s.len() {
        lemma_digits_end(s, from);
        lemma_spaces_end(s, digits_end(s, from));
    }
}

/// One map line after any run of line endings: its end and the three
/// numbers `destination source length`.
pub open spec fn map_at(s: Seq<u8>, from: int) -> Option<(int, (int, int, int))>
    recommends
        0 <= from <= s.len(),
{
    let a = newlines_end(s, from);
    match num_at(s, a) {
        None => None,
        Some((e1, d)) => {
            let p1 = spaces_end(s, e1);
            if p1 == e1 {
                None
            } else {
                match num_at(s, p1) {
                    None => None,
                    Some((e2, src)) => {
                        let p2 = spaces_end(s, e2);
                        if p2 == e2 {
                            None
                        } else {
                            match num_at(s, p2) {
                                None => None,
                                Some((e3, l)) => Some((e3, (d, src, l))),
                            }
                        }
                    },
                }
            }
        },
    }
}

proof fn lemma_map_at_advances(s: Seq<u8>, from: int)
    requires
        0 <= from <= s.len(),
    ensures
        match map_at(s, from) {
            Some((e, t)) => from < e <= s.len(),
            None => true,
        },
{
    lemma_newlines_end(s, from);
    let a = newlines_end(s, from);
    lemma_digits_end(s, a);
    let e1 = digits_end(s, a);
    if e1 > a {
        lemma_spaces_end(s, e1);
        let p1 = spaces_end(s, e1);
        lemma_digits_end(s, p1);
        let e2 = digits_end(s, p1);
        if e2 > p1 {
            lemma_spaces_end(s, e2);
            let p2 = spaces_end(s, e2);
            lemma_digits_end(s, p2);
        }
    }
}

/// The run of map lines starting at `from`: where it ends and the number
/// triples read, possibly none.
pub open spec fn maps_at(s: Seq<u8>, from: int) -> (int, Seq<(int, int, int)>)
    decreases s.len() - from via maps_at_decreases
{
    if 0 <= from <= s.len() {
        match map_at(s, from) {
            None => (from, Seq::empty()),
            Some((e, t)) => {
                let (e2, rest) = maps_at(s, e);
                (e2, seq![t] + rest)
            },
        }
    } else {
        (from, Seq::empty())
    }
}

#[via_fn]
proof fn maps_at_decreases(s: Seq<u8>, from: int) {
    if 0 <= from <= s.len() {
        lemma_map_at_advances(s, from);
    }
}

/// The stage name pair `from-to-to` starting at `from`: where it ends and
/// the two names.
pub open spec fn name_at(s: Seq<u8>, from: int) -> Option<(int, (Seq<u8>, Seq<u8>))>
    recommends
        0 <= from <= s.len(),
{
    let a1 = alpha_end(s, from);
    if a1 == from || !has_prefix(s, a1, to_tag()) {
        None
    } else {
        let b = a1 + 4;
        let a2 = alpha_end(s, b);
        if a2 == b {
            None
        } else {
            Some((a2, (s.subrange(from, a1), s.subrange(b, a2))))
        }
    }
}

/// One almanac stage starting at `from`, after any run of line endings:
/// its end, its two names, and its map triples (at least one).
pub open spec fn entry_at(s: Seq<u8>, from: int) -> Option<(int, (Seq<u8>, Seq<u8>, Seq<(int, int, int)>))>
    recommends
        0 <= from <= s.len(),
{
    let a = newlines_end(s, from);
    match name_at(s, a) {
        None => None,
        Some((p, (nf, nt))) => {
            if !has_prefix(s, p, map_tag()) {
                None
            } else {
                let (e, maps) = maps_at(s, p + 5);
                if maps.len() == 0 {
                    None
                } else {
                    Some((e, (nf, nt, maps)))
                }
            }
        },
    }
}

proof fn lemma_entry_at_advances(s: Seq<u8>, from: int)
    requires
        0 <= from <= s.len(),
    ensures
        match entry_at(s, from) {
            Some((e, t)) => from < e <= s.len(),
            None => true,
        },
{
    lemma_newlines_end(s, from);
    let a = newlines_end(s, from);
    lemma_alpha_end(s, a);
    let a1 = alpha_end(s, a);
    if a1 > a && has_prefix(s, a1, to_tag()) {
        lemma_alpha_end(s, a1 + 4);
        let a2 = alpha_end(s, a1 + 4);
        if a2 > a1 + 4 && has_prefix(s, a2, map_tag()) {
            lemma_maps_at_bounds(s, a2 + 5);
            lemma_map_at_advances(s, a2 + 5);
        }
    }
}

proof fn lemma_maps_at_bounds(s: Seq<u8>, from: int)
    requires
        0 <= from <= s.len(),
    ensures
        from <= maps_at(s, from).0 <= s.len(),
    decreases s.len() - from,
{
    lemma_map_at_advances(s, from);
    match map_at(s, from) {
        None => {},
        Some((e, t)) => {
            lemma_maps_at_bounds(s, e);
        },
    }
}

/// The run of almanac stages starting at `from`: where it ends and the
/// stages read, possibly none.
pub open spec fn entries_at(s: Seq<u8>, from: int) -> (int, Seq<(Seq<u8>, Seq<u8>, Seq<(int, int, int)>)>)
    decreases s.len() - from via entries_at_decreases
{
    if 0 <= from <= s.len() {
        match entry_at(s, from) {
            None => (from, Seq::empty()),
            Some((e, t)) => {
                let (e2, rest) = entries_at(s, e);
                (e2, seq![t] + rest)
            },
        }
    } else {
        (from, Seq::empty())
    }
}

#[via_fn]
proof fn entries_at_decreases(s: Seq<u8>, from: int) {
    if 0 <= from <= s.len() {
        lemma_entry_at_advances(s, from);
    }
}

pub proof fn lemma_entries_at_bounds(s: Seq<u8>, from: int)
    requires
        0 <= from <= s.len(),
    ensures
        from <= entries_at(s, from).0 <= s.len(),
    decreases s.len() - from,
{
    lemma_entry_at_advances(s, from);
    match entry_at(s, from) {
        None => {},
        Some((e, t)) => {
            lemma_entries_at_bounds(s, e);
        },
    }
}

/// Index of the stage a name lookup finds: the last stage whose source
/// name is `name`, since a later stage of one name shadows an earlier one.
pub open spec fn last_from(names: Seq<(Seq<u8>, Seq<u8>)>, name: Seq<u8>) -> Option<int>
    decreases names.len(),
{
    if names.len() == 0 {
        None
    } else if names.last().0 == name {
        Some(names.len() - 1)
    } else {
        last_from(names.drop_last(), name)
    }
}

pub proof fn lemma_last_from(names: Seq<(Seq<u8>, Seq<u8>)>, name: Seq<u8>)
    ensures
        match last_from(names, name) {
            Some(i) => 0 <= i < names.len() && names[i].0 == name && forall|j: int|
                i < j < names.len() ==> (#[trigger] names[j]).0 != name,
            None => forall|j: int| 0 <= j < names.len() ==> (#[trigger] names[j]).0 != name,
        },
    decreases names.len(),
{
    if names.len() > 0 && names.last().0 != name {
        lemma_last_from(names.drop_last(), name);
        match last_from(names.drop_last(), name) {
            Some(i) => {
                assert(names.drop_last()[i] == names[i]);
                assert forall|j: int| i < j < names.len() implies (#[trigger] names[j]).0
                    != name by {
                    if j < names.len() - 1 {
                        assert(names.drop_last()[j] == names[j]);
                        assert(names.drop_last()[j].0 != name);
                    }
                }
            },
            None => {
                assert forall|j: int| 0 <= j < names.len() implies (#[trigger] names[j]).0
                    != name by {
                    if j < names.len() - 1 {
                        assert(names.drop_last()[j] == names[j]);
                        assert(names.drop_last()[j].0 != name);
                    }
                }
            },
        }
    }
}

/// The stage order the names dictate, walking from `name` to `location`:
/// for each step the index of the stage leaving the current name.
pub open spec fn chain_order(names: Seq<(Seq<u8>, Seq<u8>)>, name: Seq<u8>, fuel: nat) -> Option<
    Seq<int>,
>
    decreases fuel,
{
    if name == location_name() {
        Some(Seq::empty())
    } else if fuel == 0 {
        None
    } else {
        match last_from(names, name) {
            None => None,
            Some(i) => match chain_order(names, names[i].1, (fuel - 1) as nat) {
                None => None,
                Some(rest) => Some(seq![i] + rest),
            },
        }
    }
}

/// Reads the `seeds: ` line: the numbers after the tag.
pub fn scan_seed_values(s: &[u8]) -> (r: Option<(usize, Vec<u64>)>)
    ensures
        match r {
            Some((e, v)) => {
                &&& has_prefix(s@, 0, seeds_tag())
                &&& seed_nums(s@, seeds_tag().len() as int) == Some(
                    (e as int, v@.map_values(|x: u64| x as int)),
                )
                &&& e <= s@.len()
            },
            None => !has_prefix(s@, 0, seeds_tag()) || seed_nums(
                s@,
                seeds_tag().len() as int,
            ) is None,
        },
{
    let tag = seeds_tag_bytes();
    if !match_prefix(s, 0, tag.as_slice()) {
        return None;
    }
    let mut out: Vec<u64> = Vec::new();
    let mut pos: usize = 7;
    loop
        invariant
            7 <= pos <= s@.len(),
            s@.len() >= 7,
            has_prefix(s@, 0, seeds_tag()),
            match seed_nums(s@, pos as int) {
                Some((e2, rest)) => seed_nums(s@, 7int) == Some::<(int, Seq<int>)>(
                    (e2, out@.map_values(|x: u64| x as int) + rest),
                ),
                None => seed_nums(s@, 7int) is None,
            },
        decreases s@.len() - pos,
    {
        proof {
            lemma_digits_end(s@, pos as int);
        }
        match scan_u64(s, pos) {
            None => {
                return None;
            },
            Some((e, v)) => {
                let ghost out0 = out@;
                out.push(v);
                let p = skip_spaces(s, e);
                proof {
                    lemma_digits_end(s@, p as int);
                    assert(out@.map_values(|x: u64| x as int) =~= out0.map_values(
                        |x: u64| x as int,
                    ).push(v as int));
                }
                let more = p > e && p < s.len() && (('0' as u8) <= s[p] && s[p] <= ('9' as u8));
                if more {
                    proof {
                        assert(digits_end(s@, p as int) > p);
                        match seed_nums(s@, p as int) {
                            Some((e2, rest)) => {
                                assert(seed_nums(s@, pos as int) == Some::<(int, Seq<int>)>(
                                    (e2, seq![v as int] + rest),
                                ));
                                assert(out0.map_values(|x: u64| x as int) + (seq![v as int] + rest)
                                    =~= out@.map_values(|x: u64| x as int) + rest);
                            },
                            None => {
                                assert(seed_nums(s@, pos as int) is None);
                            },
                        }
                    }
                    pos = p;
                } else {
                    proof {
                        assert(seed_nums(s@, pos as int) == Some::<(int, Seq<int>)>(
                            (e as int, seq![v as int]),
                        ));
                        assert(out0.map_values(|x: u64| x as int) + seq![v as int]
                            =~= out@.map_values(|x: u64| x as int));
                        assert(out@.map_values(|x: u64| x as int) + Seq::<int>::empty()
                            =~= out@.map_values(|x: u64| x as int));
                    }
                    return Some((e, out));
                }
            },
        }
    }
}

/// Reads one map line after any run of line endings.
pub fn scan_map_triple(s: &[u8], from: usize) -> (r: Option<(usize, (u64, u64, u64))>)
    requires
        from <= s@.len(),
    ensures
        match r {
            Some((e, (d, src, l))) => map_at(s@, from as int) == Some(
                (e as int, (d as int, src as int, l as int)),
            ) && from < e <= s@.len(),
            None => map_at(s@, from as int) is None,
        },
{
    proof {
        lemma_map_at_advances(s@, from as int);
    }
    let a = skip_newlines(s, from);
    let (e1, d) = match scan_u64(s, a) {
        None => {
            return None;
        },
        Some(x) => x,
    };
    let p1 = skip_spaces(s, e1);
    if p1 == e1 {
        return None;
    }
    let (e2, src) = match scan_u64(s, p1) {
        None => {
            return None;
        },
        Some(x) => x,
    };
    let p2 = skip_spaces(s, e2);
    if p2 == e2 {
        return None;
    }
    let (e3, l) = match scan_u64(s, p2) {
        None => {
            return None;
        },
        Some(x) => x,
    };
    Some((e3, (d, src, l)))
}

/// Reads the run of map lines starting at `from`.
pub fn scan_maps(s: &[u8], from: usize) -> (r: (usize, Vec<(u64, u64, u64)>))
    requires
        from <= s@.len(),
    ensures
        ({
            let (e, ms) = maps_at(s@, from as int);
            r.0 == e && r.1@.map_values(|t: (u64, u64, u64)| (t.0 as int, t.1 as int, t.2 as int))
                == ms && from <= r.0 <= s@.len()
        }),
{
    let mut out: Vec<(u64, u64, u64)> = Vec::new();
    let mut pos: usize = from;
    proof {
        lemma_maps_at_bounds(s@, from as int);
    }
    loop
        invariant
            from <= pos <= s@.len(),
            maps_at(s@, from as int).0 == maps_at(s@, pos as int).0,
            maps_at(s@, from as int).1 =~= out@.map_values(
                |t: (u64, u64, u64)| (t.0 as int, t.1 as int, t.2 as int),
            ) + maps_at(s@, pos as int).1,
        decreases s@.len() - pos,
    {
        proof {
            lemma_maps_at_bounds(s@, pos as int);
            lemma_map_at_advances(s@, pos as int);
        }
        match scan_map_triple(s, pos) {
            None => {
                proof {
                    assert(maps_at(s@, pos as int).1 =~= Seq::<(int, int, int)>::empty());
                    assert(out@.map_values(
                        |t: (u64, u64, u64)| (t.0 as int, t.1 as int, t.2 as int),
                    ) + Seq::<(int, int, int)>::empty() =~= out@.map_values(
                        |t: (u64, u64, u64)| (t.0 as int, t.1 as int, t.2 as int),
                    ));
                }
                return (pos, out);
            },
            Some((e, t)) => {
                let ghost out0 = out@;
                out.push(t);
                proof {
                    let f = |t: (u64, u64, u64)| (t.0 as int, t.1 as int, t.2 as int);
                    assert(out@.map_values(f) =~= out0.map_values(f).push(
                        (t.0 as int, t.1 as int, t.2 as int),
                    ));
                    let (e2, rest) = maps_at(s@, e as int);
                    assert(maps_at(s@, pos as int).1 == seq![(t.0 as int, t.1 as int, t.2 as int)]
                        + rest);
                    assert(out0.map_values(f) + (seq![(t.0 as int, t.1 as int, t.2 as int)] + rest)
                        =~= out@.map_values(f) + rest);
                }
                pos = e;
            },
        }
    }
}

/// One almanac stage as read from the text: its two names and the raw
/// `destination source length` triples of its map lines.
#[derive(Clone, Debug)]
pub struct RawEntry {
    pub from: Vec<u8>,
    pub to: Vec<u8>,
    pub maps: Vec<(u64, u64, u64)>,
}

/// The mathematical value of a raw stage.
pub open spec fn raw_view(e: RawEntry) -> (Seq<u8>, Seq<u8>, Seq<(int, int, int)>) {
    (e.from@, e.to@, e.maps@.map_values(|t: (u64, u64, u64)| (t.0 as int, t.1 as int, t.2 as int)))
}

/// The mathematical values of a list of raw stages.
pub open spec fn raws_view(v: Seq<RawEntry>) -> Seq<(Seq<u8>, Seq<u8>, Seq<(int, int, int)>)> {
    v.map_values(|e: RawEntry| raw_view(e))
}

/// The name pairs of a list of raw stages.
pub open spec fn names_of(v: Seq<RawEntry>) -> Seq<(Seq<u8>, Seq<u8>)> {
    v.map_values(|e: RawEntry| (e.from@, e.to@))
}

/// The name pairs of a list of raw stage values.
pub open spec fn raw_names(raws: Seq<(Seq<u8>, Seq<u8>, Seq<(int, int, int)>)>) -> Seq<
    (Seq<u8>, Seq<u8>),
> {
    raws.map_values(|t: (Seq<u8>, Seq<u8>, Seq<(int, int, int)>)| (t.0, t.1))
}

/// The two name projections of a raw stage list agree.
pub proof fn lemma_names_agree(v: Seq<RawEntry>)
    ensures
        names_of(v) == raw_names(raws_view(v)),
{
    assert(names_of(v) =~= raw_names(raws_view(v)));
}

/// A text of `n` bytes holds at most `n` stages.
pub proof fn lemma_entries_count(s: Seq<u8>, from: int)
    requires
        0 <= from <= s.len(),
    ensures
        entries_at(s, from).1.len() <= s.len() - from,
    decreases s.len() - from,
{
    lemma_entry_at_advances(s, from);
    match entry_at(s, from) {
        None => {},
        Some((e, t)) => {
            lemma_entries_count(s, e);
        },
    }
}

/// Reads the stage name pair `one-to-other`.
pub fn scan_name(s: &[u8], from: usize) -> (r: Option<(usize, Vec<u8>, Vec<u8>)>)
    requires
        from <= s@.len(),
    ensures
        match r {
            Some((e, nf, nt)) => name_at(s@, from as int) == Some(
                (e as int, (nf@, nt@)),
            ) && from < e <= s@.len(),
            None => name_at(s@, from as int) is None,
        },
{
    proof {
        lemma_alpha_end(s@, from as int);
    }
    let a1 = match scan_alpha(s, from) {
        None => {
            return None;
        },
        Some(a1) => a1,
    };
    let tag = to_tag_bytes();
    if !match_prefix(s, a1, tag.as_slice()) {
        return None;
    }
    let slen = s.len();
    proof {
        assert(a1 + 4 <= slen);
    }
    let b = a1 + 4;
    proof {
        lemma_alpha_end(s@, b as int);
    }
    let a2 = match scan_alpha(s, b) {
        None => {
            return None;
        },
        Some(a2) => a2,
    };
    let nf = copy_range(s, from, a1);
    let nt = copy_range(s, b, a2);
    Some((a2, nf, nt))
}

/// Reads one almanac stage after any run of line endings.
pub fn scan_entry(s: &[u8], from: usize) -> (r: Option<(usize, RawEntry)>)
    requires
        from <= s@.len(),
    ensures
        match r {
            Some((e, entry)) => entry_at(s@, from as int) == Some(
                (e as int, raw_view(entry)),
            ) && from < e <= s@.len(),
            None => entry_at(s@, from as int) is None,
        },
{
    proof {
        lemma_entry_at_advances(s@, from as int);
    }
    let a = skip_newlines(s, from);
    let (p, nf, nt) = match scan_name(s, a) {
        None => {
            return None;
        },
        Some(x) => x,
    };
    let tag = map_tag_bytes();
    if !match_prefix(s, p, tag.as_slice()) {
        return None;
    }
    let slen = s.len();
    proof {
        assert(p + 5 <= slen);
    }
    let (e, maps) = scan_maps(s, p + 5);
    if maps.len() == 0 {
        return None;
    }
    Some((e, RawEntry { from: nf, to: nt, maps }))
}

/// Reads the run of almanac stages starting at `from`.
pub fn scan_entries(s: &[u8], from: usize) -> (r: (usize, Vec<RawEntry>))
    requires
        from <= s@.len(),
    ensures
        ({
            let (e, es) = entries_at(s@, from as int);
            r.0 == e && raws_view(r.1@) == es && from <= r.0 <= s@.len()
        }),
{
    let mut out: Vec<RawEntry> = Vec::new();
    let mut pos: usize = from;
    proof {
        lemma_entries_at_bounds(s@, from as int);
    }
    loop
        invariant
            from <= pos <= s@.len(),
            entries_at(s@, from as int).0 == entries_at(s@, pos as int).0,
            entries_at(s@, from as int).1 =~= raws_view(out@) + entries_at(s@, pos as int).1,
        decreases s@.len() - pos,
    {
        proof {
            lemma_entries_at_bounds(s@, pos as int);
            lemma_entry_at_advances(s@, pos as int);
        }
        match scan_entry(s, pos) {
            None => {
                proof {
                    assert(entries_at(s@, pos as int).1 =~= Seq::<
                        (Seq<u8>, Seq<u8>, Seq<(int, int, int)>),
                    >::empty());
                    assert(raws_view(out@) + entries_at(s@, pos as int).1 =~= raws_view(out@));
                }
                return (pos, out);
            },
            Some((e, entry)) => {
                let ghost out0 = out@;
                let ghost eg = entry;
                out.push(entry);
                proof {
                    assert(raws_view(out@) =~= raws_view(out0).push(raw_view(eg)));
                    let (e2, rest) = entries_at(s@, e as int);
                    assert(entries_at(s@, pos as int).1 == seq![raw_view(eg)] + rest);
                    assert(raws_view(out0) + (seq![raw_view(eg)] + rest) =~= raws_view(out@)
                        + rest);
                }
                pos = e;
            },
        }
    }
}

/// Finds the stage a name lookup yields: the last one with that source name.
fn find_stage(entries: &Vec<RawEntry>, name: &Vec<u8>) -> (r: Option<usize>)
    ensures
        match r {
            Some(i) => last_from(names_of(entries@), name@) == Some(i as int) && i
                < entries@.len(),
            None => last_from(names_of(entries@), name@) is None,
        },
{
    let ghost names = names_of(entries@);
    let n = entries.len();
    let mut best: Option<usize> = None;
    let mut j: usize = 0;
    proof {
        assert(names.take(0) =~= Seq::<(Seq<u8>, Seq<u8>)>::empty());
    }
    while j < n
        invariant
            n == entries@.len(),
            names == names_of(entries@),
            j <= n,
            match best {
                Some(b) => last_from(names.take(j as int), name@) == Some(b as int) && b < n,
                None => last_from(names.take(j as int), name@) is None,
            },
        decreases n - j,
    {
        proof {
            assert(names.take(j + 1).last() == names[j as int]);
            assert(names.take(j + 1).drop_last() =~= names.take(j as int));
            assert(names[j as int].0 == entries@[j as int].from@);
        }
        if crate::text::bytes_eq(entries[j].from.as_slice(), name.as_slice()) {
            best = Some(j);
        }
        j = j + 1;
    }
    proof {
        assert(names.take(n as int) =~= names);
    }
    best
}


/// The order in which the stages chain from `seed` to `location`, as
/// indices into the list; `None` when no such walk exists within the
/// list's length.
pub fn order_chain(entries: &Vec<RawEntry>) -> (r: Option<Vec<usize>>)
    requires
        entries@.len() + 1 <= usize::MAX,
    ensures
        match r {
            Some(idx) => chain_order(names_of(entries@), seed_name(), (entries@.len() + 1) as nat)
                == Some(idx@.map_values(|x: usize| x as int)) && forall|k: int|
                0 <= k < idx@.len() ==> #[trigger] idx@[k] < entries@.len(),
            None => chain_order(
                names_of(entries@),
                seed_name(),
                (entries@.len() + 1) as nat,
            ) is None,
        },
{
    let ghost names = names_of(entries@);
    let ghost fuel0 = (entries@.len() + 1) as nat;
    let mut acc: Vec<usize> = Vec::new();
    let mut current: Vec<u8> = seed_name_bytes();
    let mut fuel: usize = entries.len() + 1;
    let loc = location_name_bytes();
    proof {
        assert(current@ == seed_name());
        match chain_order(names, current@, fuel as nat) {
            Some(rest) => {
                assert(acc@.map_values(|x: usize| x as int) + rest =~= rest);
            },
            None => {},
        }
    }
    loop
        invariant
            names == names_of(entries@),
            fuel0 == (entries@.len() + 1) as nat,
            fuel <= entries@.len() + 1,
            loc@ == location_name(),
            forall|k: int| 0 <= k < acc@.len() ==> #[trigger] acc@[k] < entries@.len(),
            match chain_order(names, current@, fuel as nat) {
                Some(rest) => chain_order(names, seed_name(), fuel0) == Some(
                    acc@.map_values(|x: usize| x as int) + rest,
                ),
                None => chain_order(names, seed_name(), fuel0) is None,
            },
        decreases fuel,
    {
        if crate::text::bytes_eq(current.as_slice(), loc.as_slice()) {
            proof {
                assert(chain_order(names, current@, fuel as nat) == Some(Seq::<int>::empty()));
                assert(acc@.map_values(|x: usize| x as int) + Seq::<int>::empty()
                    =~= acc@.map_values(|x: usize| x as int));
            }
            return Some(acc);
        }
        if fuel == 0 {
            return None;
        }
        match find_stage(entries, &current) {
            None => {
                return None;
            },
            Some(i) => {
                proof {
                    lemma_last_from(names, current@);
                }
                let ghost acc0 = acc@;
                let ghost cur0 = current@;
                acc.push(i);
                current = entries[i].to.clone();
                proof {
                    assert(current@ =~= entries@[i as int].to@);
                    assert(names[i as int].1 == entries@[i as int].to@);
                    assert(acc@.map_values(|x: usize| x as int) =~= acc0.map_values(
                        |x: usize| x as int,
                    ).push(i as int));
                    match chain_order(names, current@, (fuel - 1) as nat) {
                        Some(rest) => {
                            assert(chain_order(names, cur0, fuel as nat) == Some(
                                seq![i as int] + rest,
                            ));
                            assert(acc0.map_values(|x: usize| x as int) + (seq![i as int] + rest)
                                =~= acc@.map_values(|x: usize| x as int) + rest);
                        },
                        None => {
                            assert(chain_order(names, cur0, fuel as nat) is None);
                        },
                    }
                }
                fuel = fuel - 1;
            },
        }
    }
}

} // verus!
