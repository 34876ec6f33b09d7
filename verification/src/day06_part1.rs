//! Toy boat races: for each race, count the hold times that beat the
//! record distance, and multiply the counts.

use vstd::prelude::*;
use crate::Error;
use crate::text::{has_prefix, is_space, lines_of, spaces_end, split_lines, skip_spaces, deep};
use crate::day09::{ints, line_numbers, parse_numbers_from};

verus! {

/// Whether holding the button for `h` of the race's `t` time units beats
/// the record distance `d`.
pub open spec fn wins(t: int, d: int, h: int) -> bool {
    h * (t - h) > d
}

/// The number of winning hold times in `[h, t)`.
pub open spec fn win_count(t: int, d: int, h: int) -> int
    decreases t - h
        when h <= t
{
    if h >= t {
        0
    } else {
        (if wins(t, d, h) {
            1int
        } else {
            0int
        }) + win_count(t, d, h + 1)
    }
}

/// The number the race loop reports: the count of winning hold times when
/// one exists, and a worthless nonpositive figure otherwise.
pub open spec fn ways_value(t: int, d: int) -> int {
    if exists|h: int| 1 <= h && 2 * h <= t && #[trigger] wins(t, d, h) {
        win_count(t, d, 0)
    } else {
        t - 2 * (t / 2) - 1
    }
}

/// The winning hold times form the interval from the first winner to its
/// mirror image.
proof fn lemma_wins_interval(t: int, d: int, i0: int)
    requires
        t >= 0,
        d >= 0,
        1 <= i0,
        2 * i0 <= t,
        wins(t, d, i0),
        forall|j: int| 1 <= j < i0 ==> !wins(t, d, j),
    ensures
        forall|h: int| #[trigger] wins(t, d, h) <==> i0 <= h <= t - i0,
{
    assert forall|h: int| #[trigger] wins(t, d, h) <==> i0 <= h <= t - i0 by {
        if i0 <= h <= t - i0 {
            assert(h * (t - h) >= i0 * (t - i0)) by (nonlinear_arith)
                requires
                    i0 <= h,
                    h <= t - i0,
            ;
        } else if h <= 0 {
            assert(h * (t - h) <= 0) by (nonlinear_arith)
                requires
                    h <= 0,
                    t - h >= 0,
            ;
        } else if h < i0 {
            assert(!wins(t, d, h));
        } else {
            // h > t - i0: its mirror image t - h lies before the first winner
            if t - h <= 0 {
                assert(h * (t - h) <= 0) by (nonlinear_arith)
                    requires
                        h >= 0,
                        t - h <= 0,
                ;
            } else {
                assert(!wins(t, d, t - h));
                assert(h * (t - h) == (t - h) * (t - (t - h))) by (nonlinear_arith);
            }
        }
    }
}

/// When no hold time in the first half wins, none wins at all.
proof fn lemma_no_winner(t: int, d: int)
    requires
        t >= 0,
        d >= 0,
        forall|j: int| 1 <= j && 2 * j <= t ==> !#[trigger] wins(t, d, j),
    ensures
        forall|h: int| !#[trigger] wins(t, d, h),
{
    assert forall|h: int| !#[trigger] wins(t, d, h) by {
        if h <= 0 {
            assert(h * (t - h) <= 0) by (nonlinear_arith)
                requires
                    h <= 0,
                    t - h >= 0,
            ;
        } else if 2 * h <= t {
        } else if t - h <= 0 {
            assert(h * (t - h) <= 0) by (nonlinear_arith)
                requires
                    h >= 0,
                    t - h <= 0,
            ;
        } else {
            assert(!wins(t, d, t - h));
            assert(h * (t - h) == (t - h) * (t - (t - h))) by (nonlinear_arith);
        }
    }
}

/// The count over a winner interval `[a, b]`.
proof fn lemma_count_interval(t: int, d: int, a: int, b: int, h: int)
    requires
        forall|x: int| #[trigger] wins(t, d, x) <==> a <= x <= b,
        1 <= a <= b < t,
        0 <= h <= t,
    ensures
        win_count(t, d, h) == if h > b {
            0int
        } else if h >= a {
            b - h + 1
        } else {
            b - a + 1
        },
    decreases t - h,
{
    if h < t {
        lemma_count_interval(t, d, a, b, h + 1);
    }
}

/// The count when nothing wins.
proof fn lemma_count_empty(t: int, d: int, h: int)
    requires
        forall|x: int| !#[trigger] wins(t, d, x),
        0 <= h <= t,
    ensures
        win_count(t, d, h) == 0,
    decreases t - h,
{
    if h < t {
        lemma_count_empty(t, d, h + 1);
    }
}

/// One race: its duration and its record distance.
#[derive(Clone, Copy, Debug)]
pub struct Race<T> {
    pub time: T,
    pub distance: T,
}

impl Race<i64> {
    /// A race of the given duration and record.
    pub fn new(time: i64, distance: i64) -> (r: Self)
        ensures
            r.time == time && r.distance == distance,
    {
        Self { time, distance }
    }

    /// The number of hold times that beat the record, found by walking to
    /// the first winning hold time; nonpositive when no hold time wins.
    #[verifier::loop_isolation(false)]
    pub fn ways_to_win(&self) -> (r: i64)
        requires
            self.time >= 0,
            self.distance >= 0,
            self.time * self.time <= i64::MAX,
        ensures
            r as int == ways_value(self.time as int, self.distance as int),
            ways_value(self.time as int, self.distance as int) <= self.time,
    {
        let t = self.time;
        let d = self.distance;
        proof {
            if t >= 2 {
                assert(t + 2 <= t * t) by (nonlinear_arith)
                    requires
                        t >= 2,
                ;
            }
            assert(t + 2 <= i64::MAX || t < 2);
        }
        let mut i: i64 = 1;
        let mut won = false;
        while i * 2 <= t && !won
            invariant
                1 <= i,
                2 * i <= t + 2,
                forall|j: int| 1 <= j < i ==> !wins(t as int, d as int, j),
                won ==> 2 * i <= t && wins(t as int, d as int, i as int),
            decreases t - 2 * i + 2, (if won {
                0int
            } else {
                1int
            }),
        {
            proof {
                assert(i * (t - i) <= t * t) by (nonlinear_arith)
                    requires
                        0 <= i <= t,
                ;
                assert(i * (t - i) >= 0 - (t * t)) by (nonlinear_arith)
                    requires
                        0 <= i <= t,
                ;
            }
            if i * (t - i) > d {
                won = true;
            } else {
                i = i + 1;
            }
        }
        let result = t - i - i + 1;
        proof {
            let ti = t as int;
            let di = d as int;
            if won {
                lemma_wins_interval(ti, di, i as int);
                lemma_count_interval(ti, di, i as int, ti - i, 0);
                assert(ways_value(ti, di) == win_count(ti, di, 0));
            } else {
                assert(forall|j: int| 1 <= j && 2 * j <= ti ==> !#[trigger] wins(ti, di, j));
                lemma_no_winner(ti, di);
                assert(!(exists|h: int| 1 <= h && 2 * h <= ti && #[trigger] wins(ti, di, h)));
                assert(2 * i > ti && 2 * (i - 1) <= ti);
                assert(i as int == ti / 2 + 1);
            }
        }
        result
    }
}

/// The numbers after a one-word tag at the head of the line.
pub open spec fn tag_line(l: Seq<u8>, tag: Seq<u8>) -> Option<Seq<int>> {
    let p = spaces_end(l, 0);
    if has_prefix(l, p, tag) && (p + tag.len() == l.len() || is_space(l[p + tag.len()])) {
        line_numbers(l, p + tag.len())
    } else {
        None
    }
}

/// The two lines of the input: race times and record distances, equally
/// many of each.
pub open spec fn races_model(s: Seq<u8>) -> Option<(Seq<int>, Seq<int>)> {
    let ls = split_lines(s);
    if ls.len() != 2 {
        None
    } else {
        match (tag_line(ls[0], time_tag()), tag_line(ls[1], distance_tag())) {
            (Some(ts), Some(ds)) => if ts.len() == ds.len() {
                Some((ts, ds))
            } else {
                None
            },
            _ => None,
        }
    }
}

/// The bytes of the tag `Time:`.
pub open spec fn time_tag() -> Seq<u8> {
    seq![('T' as u8), ('i' as u8), ('m' as u8), ('e' as u8), (':' as u8)]
}

/// The bytes of the tag `Distance:`.
pub open spec fn distance_tag() -> Seq<u8> {
    seq![
        ('D' as u8),
        ('i' as u8),
        ('s' as u8),
        ('t' as u8),
        ('a' as u8),
        ('n' as u8),
        ('c' as u8),
        ('e' as u8),
        (':' as u8),
    ]
}

/// Builds the tag `Time:` as bytes.
fn time_tag_bytes() -> (r: Vec<u8>)
    ensures
        r@ =~= time_tag(),
{
    let mut v: Vec<u8> = Vec::new();
    v.push('T' as u8);
    v.push('i' as u8);
    v.push('m' as u8);
    v.push('e' as u8);
    v.push(':' as u8);
    v
}

/// Builds the tag `Distance:` as bytes.
fn distance_tag_bytes() -> (r: Vec<u8>)
    ensures
        r@ =~= distance_tag(),
{
    let mut v: Vec<u8> = Vec::new();
    v.push('D' as u8);
    v.push('i' as u8);
    v.push('s' as u8);
    v.push('t' as u8);
    v.push('a' as u8);
    v.push('n' as u8);
    v.push('c' as u8);
    v.push('e' as u8);
    v.push(':' as u8);
    v
}

/// Reads the numbers after the given tag at the head of the line.
fn scan_tag_line(line: &[u8], tag: &Vec<u8>) -> (r: Option<Vec<i64>>)
    ensures
        match r {
            Some(v) => tag_line(line@, tag@) == Some(ints(v@)),
            None => tag_line(line@, tag@) is None,
        },
{
    let p = skip_spaces(line, 0);
    if !crate::text::match_prefix(line, p, tag.as_slice()) {
        return None;
    }
    let llen = line.len();
    proof {
        assert(p + tag@.len() <= llen);
    }
    let q = p + tag.len();
    if q < line.len() && !(line[q] == (' ' as u8) || line[q] == ('\t' as u8)) {
        return None;
    }
    parse_numbers_from(line, q)
}

/// Reads the two race lines: the times and the record distances.
pub fn parse_input(input: &[u8]) -> (r: Result<(Vec<i64>, Vec<i64>), Error>)
    ensures
        match r {
            Ok((ts, ds)) => races_model(input@) == Some((ints(ts@), ints(ds@))),
            Err(e) => e == Error::BadInput && races_model(input@) is None,
        },
{
    let ghost ls = split_lines(input@);
    let lines = lines_of(input);
    proof {
        assert(ls.len() == lines@.len());
    }
    if lines.len() != 2 {
        return Err(Error::BadInput);
    }
    proof {
        assert(ls[0] == deep(lines@)[0]);
        assert(deep(lines@)[0] == lines@[0]@);
        assert(ls[1] == deep(lines@)[1]);
        assert(deep(lines@)[1] == lines@[1]@);
    }
    let tt = time_tag_bytes();
    let times = match scan_tag_line(lines[0].as_slice(), &tt) {
        None => {
            return Err(Error::BadInput);
        },
        Some(v) => v,
    };
    let dt = distance_tag_bytes();
    let dists = match scan_tag_line(lines[1].as_slice(), &dt) {
        None => {
            return Err(Error::BadInput);
        },
        Some(v) => v,
    };
    if times.len() != dists.len() {
        return Err(Error::BadInput);
    }
    Ok((times, dists))
}

/// The product of the per-race way counts, taken left to right.
pub open spec fn ways_product(ts: Seq<int>, ds: Seq<int>, k: int) -> int
    decreases k
        when 0 <= k <= ts.len() && ts.len() == ds.len()
{
    if k <= 0 {
        1
    } else {
        ways_product(ts, ds, k - 1) * ways_value(ts[k - 1], ds[k - 1])
    }
}

/// Whether the race numbers stay inside the machine range: nonnegative
/// values, squares and all partial products representable.
pub open spec fn races_fit(ts: Seq<int>, ds: Seq<int>) -> bool {
    &&& forall|i: int|
        0 <= i < ts.len() ==> 0 <= #[trigger] ts[i] && ts[i] * ts[i] <= i64::MAX
    &&& forall|i: int| 0 <= i < ds.len() ==> 0 <= #[trigger] ds[i]
    &&& forall|k: int|
        0 <= k <= ts.len() ==> i64::MIN <= #[trigger] ways_product(ts, ds, k) <= i64::MAX
}

/// The product over all races of the number of ways to beat the record.
///
/// `BadInput` comes exactly when the text is not a `Time:` line and a
/// `Distance:` line of equally many numbers.
#[verifier::loop_isolation(false)]
pub fn process(input: &[u8]) -> (r: Result<i64, Error>)
    requires
        match races_model(input@) {
            Some((ts, ds)) => races_fit(ts, ds),
            None => true,
        },
    ensures
        match r {
            Ok(n) => match races_model(input@) {
                Some((ts, ds)) => n as int == ways_product(ts, ds, ts.len() as int),
                None => false,
            },
            Err(e) => e == Error::BadInput && races_model(input@) is None,
        },
{
    let (times, dists) = match parse_input(input) {
        Err(e) => {
            return Err(e);
        },
        Ok(x) => x,
    };
    let ghost ts = ints(times@);
    let ghost ds = ints(dists@);
    let n = times.len();
    let mut product: i64 = 1;
    let mut k: usize = 0;
    while k < n
        invariant
            k <= n,
            product as int == ways_product(ts, ds, k as int),
        decreases n - k,
    {
        let race = Race::new(times[k], dists[k]);
        proof {
            assert(ts[k as int] == times@[k as int] as int);
            assert(ds[k as int] == dists@[k as int] as int);
            assert(i64::MIN <= ways_product(ts, ds, k + 1) <= i64::MAX);
        }
        let ways = race.ways_to_win();
        proof {
            assert(ways_product(ts, ds, k + 1) == ways_product(ts, ds, k as int) * (
            ways as int));
            assert(i64::MIN <= product * ways <= i64::MAX);
        }
        product = product * ways;
        k = k + 1;
    }
    Ok(product)
}

} // verus!
