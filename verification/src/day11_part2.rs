//! Galaxy expansion: every row and column without a galaxy is read as
//! `factor` rows or columns wide, and the answer is the sum of the grid
//! distances between all galaxy pairs.

use vstd::prelude::*;
use crate::Error;

verus! {

/// One galaxy at its grid position: one-based line and column.
#[derive(Clone, Copy, Debug, PartialEq, Eq, Structural)]
pub struct Galaxy {
    pub x: u64,
    pub y: u64,
}

/// The positions of the galaxies of the text, in reading order, counting
/// lines and columns from one.
pub open spec fn galaxies_model(s: Seq<u8>, i: int, line: int, col: int) -> Seq<(int, int)>
    decreases s.len() - i
        when 0 <= i <= s.len()
{
    if i >= s.len() {
        Seq::empty()
    } else if s[i] == ('\n' as u8) {
        galaxies_model(s, i + 1, line + 1, 1)
    } else if s[i] == ('#' as u8) {
        seq![(line, col)] + galaxies_model(s, i + 1, line, col + 1)
    } else {
        galaxies_model(s, i + 1, line, col + 1)
    }
}

/// Whether everything after the last galaxy is empty space: only then
/// has the whole chart been read.
pub open spec fn clean_tail(s: Seq<u8>) -> bool
    decreases s.len(),
{
    if s.len() == 0 {
        true
    } else if s.last() == ('.' as u8) {
        clean_tail(s.drop_last())
    } else {
        s.last() == ('#' as u8)
    }
}

/// The views of the galaxies.
pub open spec fn gal_ints(gs: Seq<Galaxy>) -> Seq<(int, int)> {
    gs.map_values(|g: Galaxy| (g.x as int, g.y as int))
}

/// Whether some galaxy stands on row `q`.
pub open spec fn has_row(gs: Seq<(int, int)>, q: int) -> bool {
    exists|k: int| 0 <= k < gs.len() && (#[trigger] gs[k]).0 == q
}

/// Whether some galaxy stands on column `q`.
pub open spec fn has_col(gs: Seq<(int, int)>, q: int) -> bool {
    exists|k: int| 0 <= k < gs.len() && (#[trigger] gs[k]).1 == q
}

/// How many rows among the first `upto` hold no galaxy.
pub open spec fn missing_rows(gs: Seq<(int, int)>, upto: int) -> int
    decreases upto
        when upto >= 0
{
    if upto <= 0 {
        0
    } else {
        missing_rows(gs, upto - 1) + if has_row(gs, upto) {
            0int
        } else {
            1int
        }
    }
}

/// How many columns among the first `upto` hold no galaxy.
pub open spec fn missing_cols(gs: Seq<(int, int)>, upto: int) -> int
    decreases upto
        when upto >= 0
{
    if upto <= 0 {
        0
    } else {
        missing_cols(gs, upto - 1) + if has_col(gs, upto) {
            0int
        } else {
            1int
        }
    }
}

/// Where one galaxy lands once every empty row and column is `factor`
/// wide.
pub open spec fn expanded_pos(gs: Seq<(int, int)>, g: (int, int), factor: int) -> (int, int) {
    (g.0 + (factor - 1) * missing_rows(gs, g.0), g.1 + (factor - 1) * missing_cols(gs, g.1))
}

proof fn lemma_missing_nonneg(gs: Seq<(int, int)>, upto: int)
    requires
        upto >= 0,
    ensures
        0 <= missing_rows(gs, upto) <= upto,
        0 <= missing_cols(gs, upto) <= upto,
    decreases upto,
{
    if upto > 0 {
        lemma_missing_nonneg(gs, upto - 1);
    }
}

/// Whether a galaxy stands on row `q`.
fn row_used(galaxies: &Vec<Galaxy>, q: u64) -> (r: bool)
    ensures
        r == has_row(gal_ints(galaxies@), q as int),
{
    let ghost gs = gal_ints(galaxies@);
    let n = galaxies.len();
    let mut k: usize = 0;
    while k < n
        invariant
            k <= n,
            n == galaxies@.len(),
            gs == gal_ints(galaxies@),
            forall|j: int| 0 <= j < k ==> (#[trigger] gs[j]).0 != q as int,
        decreases n - k,
    {
        if galaxies[k].x == q {
            proof {
                assert(gs[k as int].0 == q as int);
            }
            return true;
        }
        proof {
            assert(gs[k as int] == (galaxies@[k as int].x as int, galaxies@[k as int].y as int));
        }
        k = k + 1;
    }
    proof {
        if has_row(gs, q as int) {
            let j = choose|j: int| 0 <= j < gs.len() && (#[trigger] gs[j]).0 == q as int;
            assert(false);
        }
    }
    false
}

/// Whether a galaxy stands on column `q`.
fn col_used(galaxies: &Vec<Galaxy>, q: u64) -> (r: bool)
    ensures
        r == has_col(gal_ints(galaxies@), q as int),
{
    let ghost gs = gal_ints(galaxies@);
    let n = galaxies.len();
    let mut k: usize = 0;
    while k < n
        invariant
            k <= n,
            n == galaxies@.len(),
            gs == gal_ints(galaxies@),
            forall|j: int| 0 <= j < k ==> (#[trigger] gs[j]).1 != q as int,
        decreases n - k,
    {
        if galaxies[k].y == q {
            proof {
                assert(gs[k as int].1 == q as int);
            }
            return true;
        }
        proof {
            assert(gs[k as int] == (galaxies@[k as int].x as int, galaxies@[k as int].y as int));
        }
        k = k + 1;
    }
    proof {
        if has_col(gs, q as int) {
            let j = choose|j: int| 0 <= j < gs.len() && (#[trigger] gs[j]).1 == q as int;
            assert(false);
        }
    }
    false
}

/// Counts the galaxy-free rows among the first `upto`.
#[verifier::loop_isolation(false)]
fn count_missing_rows(galaxies: &Vec<Galaxy>, upto: u64) -> (r: u64)
    ensures
        r as int == missing_rows(gal_ints(galaxies@), upto as int),
        r <= upto,
{
    let ghost gs = gal_ints(galaxies@);
    proof {
        lemma_missing_nonneg(gs, upto as int);
    }
    let mut count: u64 = 0;
    let mut q: u64 = 0;
    while q < upto
        invariant
            q <= upto,
            count as int == missing_rows(gs, q as int),
            count <= q,
        decreases upto - q,
    {
        proof {
            lemma_missing_nonneg(gs, q as int);
        }
        q = q + 1;
        if !row_used(galaxies, q) {
            count = count + 1;
        }
    }
    count
}

/// Counts the galaxy-free columns among the first `upto`.
#[verifier::loop_isolation(false)]
fn count_missing_cols(galaxies: &Vec<Galaxy>, upto: u64) -> (r: u64)
    ensures
        r as int == missing_cols(gal_ints(galaxies@), upto as int),
        r <= upto,
{
    let ghost gs = gal_ints(galaxies@);
    proof {
        lemma_missing_nonneg(gs, upto as int);
    }
    let mut count: u64 = 0;
    let mut q: u64 = 0;
    while q < upto
        invariant
            q <= upto,
            count as int == missing_cols(gs, q as int),
            count <= q,
        decreases upto - q,
    {
        proof {
            lemma_missing_nonneg(gs, q as int);
        }
        q = q + 1;
        if !col_used(galaxies, q) {
            count = count + 1;
        }
    }
    count
}

/// Moves every galaxy to where it stands once each empty row and column
/// is `factor` wide; `None` when a position leaves the machine range.
#[verifier::loop_isolation(false)]
pub fn expand_galaxies(galaxies: &Vec<Galaxy>, factor: u64) -> (r: Option<Vec<Galaxy>>)
    requires
        factor >= 1,
    ensures
        match r {
            Some(out) => out@.len() == galaxies@.len() && forall|k: int|
                0 <= k < out@.len() ==> ((#[trigger] out@[k]).x as int, out@[k].y as int)
                    == expanded_pos(
                    gal_ints(galaxies@),
                    gal_ints(galaxies@)[k],
                    factor as int,
                ),
            None => exists|k: int|
                0 <= k < galaxies@.len() && (expanded_pos(
                    gal_ints(galaxies@),
                    #[trigger] gal_ints(galaxies@)[k],
                    factor as int,
                ).0 > u64::MAX || expanded_pos(
                    gal_ints(galaxies@),
                    gal_ints(galaxies@)[k],
                    factor as int,
                ).1 > u64::MAX),
        },
{
    let ghost gs = gal_ints(galaxies@);
    let n = galaxies.len();
    let mut out: Vec<Galaxy> = Vec::new();
    let mut k: usize = 0;
    while k < n
        invariant
            k <= n,
            out@.len() == k,
            forall|j: int|
                0 <= j < k ==> ((#[trigger] out@[j]).x as int, out@[j].y as int) == expanded_pos(
                    gs,
                    gs[j],
                    factor as int,
                ),
        decreases n - k,
    {
        let g = galaxies[k];
        proof {
            assert(gs[k as int] == (g.x as int, g.y as int));
        }
        let mr = count_missing_rows(galaxies, g.x);
        let mc = count_missing_cols(galaxies, g.y);
        let dx = match (factor - 1).checked_mul(mr) {
            None => {
                proof {
                    lemma_missing_nonneg(gs, g.x as int);
                }
                return None;
            },
            Some(dx) => dx,
        };
        let nx = match g.x.checked_add(dx) {
            None => {
                return None;
            },
            Some(nx) => nx,
        };
        let dy = match (factor - 1).checked_mul(mc) {
            None => {
                proof {
                    lemma_missing_nonneg(gs, g.y as int);
                }
                return None;
            },
            Some(dy) => dy,
        };
        let ny = match g.y.checked_add(dy) {
            None => {
                return None;
            },
            Some(ny) => ny,
        };
        out.push(Galaxy { x: nx, y: ny });
        k = k + 1;
    }
    Some(out)
}

/// Reads the galaxy positions of the text, lines and columns counted
/// from one.
#[verifier::loop_isolation(false)]
pub fn parse_input(input: &[u8]) -> (r: (Vec<Galaxy>, bool))
    requires
        input@.len() + 1 <= u64::MAX,
    ensures
        gal_ints(r.0@) == galaxies_model(input@, 0, 1, 1),
        r.1 == clean_tail(input@),
        forall|k: int| 0 <= k < r.0@.len() ==> (#[trigger] r.0@[k]).x >= 1 && r.0@[k].y >= 1,
{
    let mut out: Vec<Galaxy> = Vec::new();
    let mut line: u64 = 1;
    let mut col: u64 = 1;
    let mut i: usize = 0;
    let mut clean = true;
    let n = input.len();
    proof {
        match galaxies_model(input@, 0, 1, 1) {
            _ => {},
        }
        assert(gal_ints(out@) + galaxies_model(input@, 0, 1, 1) =~= galaxies_model(
            input@,
            0,
            1,
            1,
        ));
    }
    while i < n
        invariant
            i <= n,
            1 <= line <= i + 1,
            1 <= col <= i + 1,
            forall|k: int| 0 <= k < out@.len() ==> (#[trigger] out@[k]).x >= 1 && out@[k].y >= 1,
            galaxies_model(input@, 0, 1, 1) == gal_ints(out@) + galaxies_model(
                input@,
                i as int,
                line as int,
                col as int,
            ),
            clean == clean_tail(input@.take(i as int)),
        decreases n - i,
    {
        let c = input[i];
        proof {
            assert(input@.take(i + 1).last() == input@[i as int]);
            assert(input@.take(i + 1).drop_last() =~= input@.take(i as int));
        }
        if c == ('\n' as u8) {
            clean = false;
            line = line + 1;
            col = 1;
        } else if c == ('#' as u8) {
            clean = true;
            let ghost out0 = out@;
            out.push(Galaxy { x: line, y: col });
            proof {
                assert(gal_ints(out@) =~= gal_ints(out0).push((line as int, col as int)));
                assert(gal_ints(out0) + (seq![(line as int, col as int)] + galaxies_model(
                    input@,
                    i + 1,
                    line as int,
                    col + 1,
                )) =~= gal_ints(out@) + galaxies_model(input@, i + 1, line as int, col + 1));
            }
            col = col + 1;
        } else {
            if c != ('.' as u8) {
                clean = false;
            }
            col = col + 1;
        }
        i = i + 1;
    }
    proof {
        assert(galaxies_model(input@, n as int, line as int, col as int) =~= Seq::<
            (int, int),
        >::empty());
        assert(gal_ints(out@) + Seq::<(int, int)>::empty() =~= gal_ints(out@));
        assert(input@.take(n as int) =~= input@);
    }
    (out, clean)
}

/// The grid distance between two positions.
pub open spec fn dist(a: (int, int), b: (int, int)) -> int {
    (if a.0 >= b.0 {
        a.0 - b.0
    } else {
        b.0 - a.0
    }) + (if a.1 >= b.1 {
        a.1 - b.1
    } else {
        b.1 - a.1
    })
}

/// The distances from one position to each of a list.
pub open spec fn dists_to(g: (int, int), rest: Seq<(int, int)>) -> int
    decreases rest.len(),
{
    if rest.len() == 0 {
        0
    } else {
        dist(g, rest[0]) + dists_to(g, rest.skip(1))
    }
}

/// The sum of the distances between all pairs of the list.
pub open spec fn pair_sum(gs: Seq<(int, int)>) -> int
    decreases gs.len(),
{
    if gs.len() == 0 {
        0
    } else {
        dists_to(gs[0], gs.skip(1)) + pair_sum(gs.skip(1))
    }
}

proof fn lemma_dists_nonneg(g: (int, int), rest: Seq<(int, int)>)
    ensures
        dists_to(g, rest) >= 0,
    decreases rest.len(),
{
    if rest.len() > 0 {
        lemma_dists_nonneg(g, rest.skip(1));
    }
}

proof fn lemma_pair_sum_nonneg(gs: Seq<(int, int)>)
    ensures
        pair_sum(gs) >= 0,
    decreases gs.len(),
{
    if gs.len() > 0 {
        lemma_dists_nonneg(gs[0], gs.skip(1));
        lemma_pair_sum_nonneg(gs.skip(1));
    }
}

/// Every galaxy at its place once empty rows and columns are `factor`
/// wide.
pub open spec fn expand_all(gs: Seq<(int, int)>, factor: int) -> Seq<(int, int)> {
    gs.map_values(|g: (int, int)| expanded_pos(gs, g, factor))
}

/// The sum of the expanded pairwise distances of the text's galaxies.
///
/// Fails exactly when the text holds anything but empty space after its
/// last galaxy, holds no galaxy at all, or a position or the sum leaves
/// the machine range.
#[verifier::loop_isolation(false)]
pub fn sum_of_expanded_distances(input: &[u8], factor: u64) -> (r: Result<u64, Error>)
    requires
        factor >= 1,
        input@.len() + 1 <= u64::MAX,
    ensures
        ({
            let gm = galaxies_model(input@, 0, 1, 1);
            let ev = expand_all(gm, factor as int);
            match r {
                Ok(t) => {
                    &&& clean_tail(input@)
                    &&& gm.len() >= 1
                    &&& t as int == pair_sum(ev)
                },
                Err(e) => e == Error::BadInput && (!clean_tail(input@) || gm.len() == 0 || (
                exists|k: int|
                    0 <= k < gm.len() && ((#[trigger] ev[k]).0 > u64::MAX || ev[k].1 > u64::MAX))
                    || pair_sum(ev) > u64::MAX),
            }
        }),
{
    let ghost gm = galaxies_model(input@, 0, 1, 1);
    let ghost ev = expand_all(gm, factor as int);
    let (galaxies, clean) = parse_input(input);
    proof {
        assert(gal_ints(galaxies@) == gm);
        assert(gm.len() == galaxies@.len());
    }
    if !clean {
        return Err(Error::BadInput);
    }
    if galaxies.len() == 0 {
        return Err(Error::BadInput);
    }
    let expanded = match expand_galaxies(&galaxies, factor) {
        None => {
            proof {
                let k = choose|k: int|
                    0 <= k < galaxies@.len() && (expanded_pos(
                        gal_ints(galaxies@),
                        #[trigger] gal_ints(galaxies@)[k],
                        factor as int,
                    ).0 > u64::MAX || expanded_pos(
                        gal_ints(galaxies@),
                        gal_ints(galaxies@)[k],
                        factor as int,
                    ).1 > u64::MAX);
                assert(ev[k] == expanded_pos(gm, gm[k], factor as int));
            }
            return Err(Error::BadInput);
        },
        Some(out) => out,
    };
    proof {
        assert(gal_ints(expanded@) =~= ev);
    }
    let n = expanded.len();
    let mut total: u64 = 0;
    let mut i: usize = 0;
    proof {
        lemma_pair_sum_nonneg(ev);
        assert(ev.skip(0) =~= ev);
    }
    while i < n
        invariant
            i <= n,
            n == ev.len(),
            gal_ints(expanded@) == ev,
            total as int + pair_sum(ev.skip(i as int)) == pair_sum(ev),
            total as int <= pair_sum(ev),
        decreases n - i,
    {
        proof {
            assert(ev.skip(i as int)[0] == ev[i as int]);
            assert(ev.skip(i as int).skip(1) =~= ev.skip(i + 1));
            lemma_pair_sum_nonneg(ev.skip(i + 1));
            lemma_dists_nonneg(ev[i as int], ev.skip(i + 1));
        }
        let gi = expanded[i];
        proof {
            assert(ev[i as int] == (gi.x as int, gi.y as int));
        }
        let mut j: usize = i + 1;
        while j < n
            invariant
                i < j <= n,
                n == ev.len(),
                gal_ints(expanded@) == ev,
                ev[i as int] == (gi.x as int, gi.y as int),
                total as int + dists_to(ev[i as int], ev.skip(j as int)) + pair_sum(
                    ev.skip(i + 1),
                ) == pair_sum(ev),
                total as int <= pair_sum(ev),
            decreases n - j,
        {
            proof {
                assert(ev.skip(j as int)[0] == ev[j as int]);
                assert(ev.skip(j as int).skip(1) =~= ev.skip(j + 1));
                lemma_dists_nonneg(ev[i as int], ev.skip(j + 1));
                lemma_pair_sum_nonneg(ev.skip(i + 1));
            }
            let gj = expanded[j];
            proof {
                assert(ev[j as int] == (gj.x as int, gj.y as int));
            }
            let dx = if gi.x >= gj.x {
                gi.x - gj.x
            } else {
                gj.x - gi.x
            };
            let dy = if gi.y >= gj.y {
                gi.y - gj.y
            } else {
                gj.y - gi.y
            };
            let step = match dx.checked_add(dy) {
                None => {
                    return Err(Error::BadInput);
                },
                Some(s) => s,
            };
            total = match total.checked_add(step) {
                None => {
                    return Err(Error::BadInput);
                },
                Some(t) => t,
            };
            j = j + 1;
        }
        proof {
            assert(ev.skip(n as int) =~= Seq::<(int, int)>::empty());
        }
        i = i + 1;
    }
    proof {
        assert(ev.skip(n as int) =~= Seq::<(int, int)>::empty());
    }
    Ok(total)
}

/// The answer with every empty row and column a million wide.
pub fn process(input: &[u8]) -> (r: Result<u64, Error>)
    requires
        input@.len() + 1 <= u64::MAX,
    ensures
        ({
            let gm = galaxies_model(input@, 0, 1, 1);
            let ev = expand_all(gm, 1000000);
            match r {
                Ok(t) => clean_tail(input@) && gm.len() >= 1 && t as int == pair_sum(ev),
                Err(e) => e == Error::BadInput && (!clean_tail(input@) || gm.len() == 0 || (
                exists|k: int|
                    0 <= k < gm.len() && ((#[trigger] ev[k]).0 > u64::MAX || ev[k].1 > u64::MAX))
                    || pair_sum(ev) > u64::MAX),
            }
        }),
{
    sum_of_expanded_distances(input, 1000000)
}

} // verus!
