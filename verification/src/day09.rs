//! Sequence extrapolation: take repeated difference rows of each history
//! line until they vanish, and read off the next or previous value.

use vstd::prelude::*;
use crate::Error;
use crate::text::{
    digits_end, int_value, is_space, lines_of, scan_i64, sign_end, skip_spaces, spaces_end,
    split_lines, lemma_spaces_end, lemma_digits_end, deep,
};

verus! {

/// The mathematical values of a row of machine integers.
pub open spec fn ints(s: Seq<i64>) -> Seq<int> {
    Seq::new(s.len(), |i: int| s[i] as int)
}

/// The mathematical values of a list of rows.
pub open spec fn rows_ints(v: Seq<Vec<i64>>) -> Seq<Seq<int>> {
    Seq::new(v.len(), |i: int| ints(v[i]@))
}

/// Whether every element of the row is zero.
pub open spec fn all_zero(s: Seq<int>) -> bool {
    forall|i: int| 0 <= i < s.len() ==> s[i] == 0
}

/// The difference row: each element minus its left neighbour.
pub open spec fn diff_row(s: Seq<int>) -> Seq<int>
    recommends
        s.len() >= 1,
{
    Seq::new((s.len() - 1) as nat, |i: int| s[i + 1] - s[i])
}

/// Whether every element of the row fits in `i64`.
pub open spec fn row_fits(s: Seq<int>) -> bool {
    forall|i: int| 0 <= i < s.len() ==> i64::MIN <= #[trigger] s[i] <= i64::MAX
}

/// The next value of a history: zero once the row vanishes, else the last
/// element plus the next value of the difference row.
pub open spec fn next_value(s: Seq<int>) -> int
    decreases s.len(),
{
    if s.len() == 0 || all_zero(s) {
        0
    } else {
        s.last() + next_value(diff_row(s))
    }
}

/// The value before a history: zero once the row vanishes, else the first
/// element minus the value before the difference row.
pub open spec fn prev_value(s: Seq<int>) -> int
    decreases s.len(),
{
    if s.len() == 0 || all_zero(s) {
        0
    } else {
        s.first() - prev_value(diff_row(s))
    }
}

proof fn lemma_next_value_unfold(s: Seq<int>)
    requires
        s.len() >= 1,
    ensures
        next_value(s) == s.last() + next_value(diff_row(s)),
{
    if all_zero(s) {
        assert(all_zero(diff_row(s)));
        assert(s.last() == 0);
    }
}

proof fn lemma_prev_value_unfold(s: Seq<int>)
    requires
        s.len() >= 1,
    ensures
        prev_value(s) == s.first() - prev_value(diff_row(s)),
{
    if all_zero(s) {
        assert(all_zero(diff_row(s)));
        assert(s.first() == 0);
    }
}

/// The walk of `get_prediction_part1` stays inside `i64` and reaches an
/// all-zero difference row: `s` is the current row and `acc` the
/// prediction gathered so far.
pub open spec fn part1_ok(s: Seq<int>, acc: int) -> bool
    decreases s.len(),
{
    &&& s.len() >= 2
    &&& row_fits(diff_row(s))
    &&& (all_zero(diff_row(s)) || (i64::MIN <= acc + diff_row(s).last() <= i64::MAX && part1_ok(
        diff_row(s),
        acc + diff_row(s).last(),
    )))
}

/// The walk of `get_prediction_part2` stays inside `i64` and reaches an
/// all-zero difference row.
pub open spec fn part2_ok(s: Seq<int>, acc: int, sub: bool) -> bool
    decreases s.len(),
{
    let acc2 = if sub {
        acc - s.first()
    } else {
        acc + s.first()
    };
    &&& s.len() >= 2
    &&& i64::MIN <= acc2 <= i64::MAX
    &&& row_fits(diff_row(s))
    &&& (all_zero(diff_row(s)) || part2_ok(diff_row(s), acc2, !sub))
}

/// The difference row of `v`: each element minus its left neighbour.
///
/// A row shorter than two has nothing to difference, and a difference
/// outside `i64` would not be representable: both stand in `requires`.
pub fn vec_diff(v: &[i64]) -> (r: Vec<i64>)
    requires
        v@.len() >= 2,
        row_fits(diff_row(ints(v@))),
    ensures
        ints(r@) == diff_row(ints(v@)),
{
    let mut out: Vec<i64> = Vec::new();
    let n = v.len();
    let mut i: usize = 0;
    while i < n - 1
        invariant
            n == v@.len() >= 2,
            row_fits(diff_row(ints(v@))),
            i <= n - 1,
            out@.len() == i,
            forall|j: int| 0 <= j < i ==> out@[j] as int == v@[j + 1] as int - v@[j] as int,
        decreases n - 1 - i,
    {
        proof {
            assert(diff_row(ints(v@))[i as int] == v@[i + 1] as int - v@[i as int] as int);
        }
        out.push(v[i + 1] - v[i]);
        i = i + 1;
    }
    proof {
        assert(ints(out@) =~= diff_row(ints(v@)));
    }
    out
}

/// Whether every element of the row is zero.
pub fn is_all_zero(v: &[i64]) -> (r: bool)
    ensures
        r == all_zero(ints(v@)),
{
    let n = v.len();
    let mut i: usize = 0;
    while i < n
        invariant
            n == v@.len(),
            i <= n,
            forall|j: int| 0 <= j < i ==> v@[j] as int == 0,
        decreases n - i,
    {
        if v[i] != 0 {
            proof {
                assert(ints(v@)[i as int] != 0);
            }
            return false;
        }
        i = i + 1;
    }
    proof {
        assert(forall|j: int| 0 <= j < n ==> ints(v@)[j] == 0);
    }
    true
}

/// The next value of the history `v`.
pub fn get_prediction_part1(v: Vec<i64>) -> (r: i64)
    requires
        part1_ok(ints(v@), v@.last() as int),
    ensures
        r == next_value(ints(v@)),
{
    let ghost orig = ints(v@);
    let mut prediction = v[v.len() - 1];
    let mut diff = v;
    proof {
        lemma_next_value_unfold(orig);
    }
    loop
        invariant
            orig == ints(v@),
            diff@.len() >= 2,
            part1_ok(ints(diff@), prediction as int),
            next_value(orig) == prediction + next_value(diff_row(ints(diff@))),
        decreases diff@.len(),
    {
        let d = vec_diff(diff.as_slice());
        proof {
            assert(ints(d@) == diff_row(ints(diff@)));
        }
        if is_all_zero(d.as_slice()) {
            proof {
                assert(next_value(diff_row(ints(diff@))) == 0);
            }
            return prediction;
        }
        proof {
            lemma_next_value_unfold(ints(d@));
            assert(ints(d@).last() == d@.last() as int);
            assert(!all_zero(diff_row(ints(diff@))));
            assert(i64::MIN <= prediction as int + diff_row(ints(diff@)).last() <= i64::MAX);
            assert(part1_ok(diff_row(ints(diff@)), prediction as int + diff_row(
                ints(diff@),
            ).last()));
        }
        let last = d[d.len() - 1];
        prediction = prediction + last;
        diff = d;
    }
}

/// The value before the history `v`.
pub fn get_prediction_part2(v: Vec<i64>) -> (r: i64)
    requires
        part2_ok(ints(v@), 0, false),
    ensures
        r == prev_value(ints(v@)),
{
    let ghost orig = ints(v@);
    let mut prediction: i64 = 0;
    let mut diff = v;
    let mut subtract = false;
    loop
        invariant
            orig == ints(v@),
            diff@.len() >= 2,
            part2_ok(ints(diff@), prediction as int, subtract),
            !subtract ==> prev_value(orig) == prediction + prev_value(ints(diff@)),
            subtract ==> prev_value(orig) == prediction - prev_value(ints(diff@)),
        decreases diff@.len(),
    {
        proof {
            lemma_prev_value_unfold(ints(diff@));
            assert(ints(diff@).first() == diff@.first() as int);
        }
        let first = diff[0];
        if subtract {
            prediction = prediction - first;
        } else {
            prediction = prediction + first;
        }
        subtract = !subtract;
        let d = vec_diff(diff.as_slice());
        proof {
            assert(ints(d@) == diff_row(ints(diff@)));
        }
        if is_all_zero(d.as_slice()) {
            proof {
                assert(prev_value(diff_row(ints(diff@))) == 0);
            }
            return prediction;
        }
        proof {
            assert(!all_zero(diff_row(ints(diff@))));
            assert(part2_ok(diff_row(ints(diff@)), prediction as int, subtract));
        }
        diff = d;
    }
}

/// `Some(rest)` glued after a parsed prefix; `None` passes through.
pub open spec fn opt_prepend(a: Seq<int>, o: Option<Seq<int>>) -> Option<Seq<int>> {
    match o {
        Some(b) => Some(a + b),
        None => None,
    }
}

/// The numbers a line denotes: blank-separated decimal integers, each
/// fitting `i64`; `None` when a token is not such a number.
pub open spec fn line_numbers(l: Seq<u8>, from: int) -> Option<Seq<int>>
    decreases l.len() - from via line_numbers_decreases
{
    if 0 <= from <= l.len() {
        let p = spaces_end(l, from);
        if p >= l.len() {
            Some(Seq::empty())
        } else {
            let d = sign_end(l, p);
            let e = digits_end(l, d);
            if e == d || int_value(l, p) > i64::MAX || int_value(l, p) < i64::MIN || (e < l.len()
                && !is_space(l[e])) {
                None
            } else {
                opt_prepend(seq![int_value(l, p)], line_numbers(l, e))
            }
        }
    } else {
        None
    }
}

#[via_fn]
proof fn line_numbers_decreases(l: Seq<u8>, from: int) {
    if 0 <= from <= l.len() {
        lemma_spaces_end(l, from);
        let p = spaces_end(l, from);
        if p < l.len() {
            let d = sign_end(l, p);
            lemma_digits_end(l, d);
        }
    }
}

/// Reads the blank-separated `i64` numbers of one line.
pub fn parse_one_line(line: &[u8]) -> (r: Option<Vec<i64>>)
    ensures
        match r {
            Some(v) => line_numbers(line@, 0) == Some(ints(v@)),
            None => line_numbers(line@, 0) is None,
        },
{
    parse_numbers_from(line, 0)
}

/// Reads the blank-separated `i64` numbers of a line from `from` on.
pub fn parse_numbers_from(line: &[u8], from: usize) -> (r: Option<Vec<i64>>)
    requires
        from <= line@.len(),
    ensures
        match r {
            Some(v) => line_numbers(line@, from as int) == Some(ints(v@)),
            None => line_numbers(line@, from as int) is None,
        },
{
    let mut out: Vec<i64> = Vec::new();
    let mut pos: usize = from;
    loop
        invariant
            pos <= line@.len(),
            line_numbers(line@, from as int) == opt_prepend(
                ints(out@),
                line_numbers(line@, pos as int),
            ),
        decreases line@.len() - pos,
    {
        let p = skip_spaces(line, pos);
        if p == line.len() {
            proof {
                assert(line_numbers(line@, pos as int) == Some(Seq::<int>::empty()));
                assert(ints(out@) + Seq::<int>::empty() =~= ints(out@));
            }
            return Some(out);
        }
        proof {
            lemma_spaces_end(line@, pos as int);
            lemma_digits_end(line@, sign_end(line@, p as int));
        }
        match scan_i64(line, p) {
            None => {
                return None;
            },
            Some((e, val)) => {
                if e < line.len() && !(line[e] == (' ' as u8) || line[e] == ('\t' as u8)) {
                    return None;
                }
                let ghost out0 = out@;
                out.push(val);
                proof {
                    assert(ints(out@) =~= ints(out0) + seq![val as int]);
                    assert(line_numbers(line@, pos as int) == opt_prepend(
                        seq![val as int],
                        line_numbers(line@, e as int),
                    ));
                    match line_numbers(line@, e as int) {
                        Some(rest) => {
                            assert((ints(out0) + seq![val as int]) + rest =~= ints(out0) + (
                            seq![val as int] + rest));
                        },
                        None => {},
                    }
                }
                pos = e;
            },
        }
    }
}

/// The numbers of every line of the text; `None` when any line is bad.
pub open spec fn input_numbers(ls: Seq<Seq<u8>>) -> Option<Seq<Seq<int>>>
    decreases ls.len(),
{
    if ls.len() == 0 {
        Some(Seq::empty())
    } else {
        match (line_numbers(ls[0], 0), input_numbers(ls.skip(1))) {
            (Some(row), Some(rest)) => Some(seq![row] + rest),
            _ => None,
        }
    }
}

/// Parses the whole input into one row of numbers per line.
pub fn parse_input(input: &[u8]) -> (r: Option<Vec<Vec<i64>>>)
    ensures
        match r {
            Some(v) => input_numbers(split_lines(input@)) == Some(rows_ints(v@)),
            None => input_numbers(split_lines(input@)) is None,
        },
{
    let lines = lines_of(input);
    let mut out: Vec<Vec<i64>> = Vec::new();
    let n = lines.len();
    let ghost ls = split_lines(input@);
    proof {
        assert(ls.skip(0) =~= ls);
        assert(rows_ints(out@) =~= Seq::<Seq<int>>::empty());
        match input_numbers(ls) {
            Some(rest) => {
                assert(rows_ints(out@) + rest =~= rest);
            },
            None => {},
        }
    }
    let mut i: usize = 0;
    while i < n
        invariant
            n == lines@.len(),
            deep(lines@) == ls,
            ls == split_lines(input@),
            i <= n,
            out@.len() == i,
            input_numbers(ls) == (match input_numbers(ls.skip(i as int)) {
                Some(rest) => Some(rows_ints(out@) + rest),
                None => None::<Seq<Seq<int>>>,
            }),
        decreases n - i,
    {
        proof {
            assert(ls.skip(i as int).len() > 0);
            assert(deep(lines@)[i as int] == lines@[i as int]@);
            assert(ls.skip(i as int)[0] == lines@[i as int]@);
            assert(ls.skip(i as int).skip(1) =~= ls.skip(i + 1));
        }
        match parse_one_line(lines[i].as_slice()) {
            None => {
                proof {
                    assert(line_numbers(ls.skip(i as int)[0], 0) is None);
                    assert(input_numbers(ls.skip(i as int)) is None);
                }
                return None;
            },
            Some(row) => {
                let ghost out0 = out@;
                let ghost rowg = row;
                out.push(row);
                proof {
                    assert(rows_ints(out@) =~= rows_ints(out0).push(ints(rowg@)));
                    match input_numbers(ls.skip(i + 1)) {
                        Some(rest) => {
                            assert((rows_ints(out0).push(ints(rowg@))) + rest =~= rows_ints(out0)
                                + (seq![ints(rowg@)] + rest));
                        },
                        None => {},
                    }
                }
                i = i + 1;
            },
        }
    }
    proof {
        assert(ls.skip(n as int) =~= Seq::<Seq<u8>>::empty());
        match input_numbers(ls) {
            Some(rows) => {
                assert(rows_ints(out@) + Seq::<Seq<int>>::empty() =~= rows_ints(out@));
            },
            None => {},
        }
    }
    Some(out)
}

/// The sum of the next values of all rows, taken left to right.
pub open spec fn part1_sum(rows: Seq<Seq<int>>) -> int
    decreases rows.len(),
{
    if rows.len() == 0 {
        0
    } else {
        part1_sum(rows.drop_last()) + next_value(rows.last())
    }
}

/// The sum of the previous values of all rows, taken left to right.
pub open spec fn part2_sum(rows: Seq<Seq<int>>) -> int
    decreases rows.len(),
{
    if rows.len() == 0 {
        0
    } else {
        part2_sum(rows.drop_last()) + prev_value(rows.last())
    }
}

/// Whether every row can be walked by part one and every partial sum fits.
pub open spec fn part1_input_ok(rows: Seq<Seq<int>>) -> bool {
    &&& forall|i: int|
        0 <= i < rows.len() ==> (#[trigger] rows[i]).len() >= 1 && part1_ok(
            rows[i],
            rows[i].last(),
        )
    &&& forall|i: int|
        0 <= i <= rows.len() ==> i64::MIN <= #[trigger] part1_sum(rows.take(i)) <= i64::MAX
}

/// Whether every row can be walked by part two and every partial sum fits.
pub open spec fn part2_input_ok(rows: Seq<Seq<int>>) -> bool {
    &&& forall|i: int| 0 <= i < rows.len() ==> part2_ok(#[trigger] rows[i], 0, false)
    &&& forall|i: int|
        0 <= i <= rows.len() ==> i64::MIN <= #[trigger] part2_sum(rows.take(i)) <= i64::MAX
}

/// The sum of the next value of every history line of the input.
pub fn part1(input: &[u8]) -> (r: Result<i64, Error>)
    requires
        match input_numbers(split_lines(input@)) {
            Some(rows) => part1_input_ok(rows),
            None => true,
        },
    ensures
        match r {
            Ok(n) => match input_numbers(split_lines(input@)) {
                Some(rows) => n == part1_sum(rows),
                None => false,
            },
            Err(e) => e == Error::BadInput && input_numbers(split_lines(input@)) is None,
        },
{
    let rows = match parse_input(input) {
        Some(rows) => rows,
        None => {
            return Err(Error::BadInput);
        },
    };
    let ghost rs = rows_ints(rows@);
    let mut sum: i64 = 0;
    let n = rows.len();
    let mut i: usize = 0;
    while i < n
        invariant
            n == rows@.len(),
            rs == rows_ints(rows@),
            input_numbers(split_lines(input@)) == Some(rs),
            part1_input_ok(rs),
            i <= n,
            sum as int == part1_sum(rs.take(i as int)),
        decreases n - i,
    {
        proof {
            assert(rs[i as int] == ints(rows@[i as int]@));
            assert(rs.take(i + 1).drop_last() =~= rs.take(i as int));
            assert(rs.take(i + 1).last() == rs[i as int]);
            assert(i64::MIN <= part1_sum(rs.take(i + 1)) <= i64::MAX);
        }
        let row = rows[i].clone();
        proof {
            assert(ints(row@).last() == row@.last() as int);
        }
        let p = get_prediction_part1(row);
        sum = sum + p;
        i = i + 1;
    }
    proof {
        assert(rs.take(n as int) =~= rs);
    }
    Ok(sum)
}

/// The sum of the value before every history line of the input.
pub fn part2(input: &[u8]) -> (r: Result<i64, Error>)
    requires
        match input_numbers(split_lines(input@)) {
            Some(rows) => part2_input_ok(rows),
            None => true,
        },
    ensures
        match r {
            Ok(n) => match input_numbers(split_lines(input@)) {
                Some(rows) => n == part2_sum(rows),
                None => false,
            },
            Err(e) => e == Error::BadInput && input_numbers(split_lines(input@)) is None,
        },
{
    let rows = match parse_input(input) {
        Some(rows) => rows,
        None => {
            return Err(Error::BadInput);
        },
    };
    let ghost rs = rows_ints(rows@);
    let mut sum: i64 = 0;
    let n = rows.len();
    let mut i: usize = 0;
    while i < n
        invariant
            n == rows@.len(),
            rs == rows_ints(rows@),
            input_numbers(split_lines(input@)) == Some(rs),
            part2_input_ok(rs),
            i <= n,
            sum as int == part2_sum(rs.take(i as int)),
        decreases n - i,
    {
        proof {
            assert(rs[i as int] == ints(rows@[i as int]@));
            assert(rs.take(i + 1).drop_last() =~= rs.take(i as int));
            assert(rs.take(i + 1).last() == rs[i as int]);
            assert(i64::MIN <= part2_sum(rs.take(i + 1)) <= i64::MAX);
        }
        let row = rows[i].clone();
        let p = get_prediction_part2(row);
        sum = sum + p;
        i = i + 1;
    }
    proof {
        assert(rs.take(n as int) =~= rs);
    }
    Ok(sum)
}

} // verus!
