//! Calibration values again, with spelled-out digits: the first and the
//! last digit of each line, written as a numeral or as a word, form a
//! two-digit number, and the answer is the sum over all lines.

use vstd::prelude::*;
use crate::Error;
use crate::text::{digit_val, is_digit, lines_of, split_lines, deep};
use crate::day01_part1::{values_sum};

verus! {

/// The digit named at position `p`, either as a numeral byte or as one of
/// the words `zero` through `nine`.
pub open spec fn match_at(l: Seq<u8>, p: int) -> Option<int> {
    if !(0 <= p < l.len()) {
        None
    } else if is_digit(l[p]) {
        Some(digit_val(l[p]))
    } else if p + 3 <= l.len() && l[p] == ('o' as u8) && l[p + 1] == ('n' as u8) && l[p + 2] == (
    'e' as u8) {
        Some(1)
    } else if p + 3 <= l.len() && l[p] == ('t' as u8) && l[p + 1] == ('w' as u8) && l[p + 2] == (
    'o' as u8) {
        Some(2)
    } else if p + 5 <= l.len() && l[p] == ('t' as u8) && l[p + 1] == ('h' as u8) && l[p + 2] == (
    'r' as u8) && l[p + 3] == ('e' as u8) && l[p + 4] == ('e' as u8) {
        Some(3)
    } else if p + 4 <= l.len() && l[p] == ('f' as u8) && l[p + 1] == ('o' as u8) && l[p + 2] == (
    'u' as u8) && l[p + 3] == ('r' as u8) {
        Some(4)
    } else if p + 4 <= l.len() && l[p] == ('f' as u8) && l[p + 1] == ('i' as u8) && l[p + 2] == (
    'v' as u8) && l[p + 3] == ('e' as u8) {
        Some(5)
    } else if p + 3 <= l.len() && l[p] == ('s' as u8) && l[p + 1] == ('i' as u8) && l[p + 2] == (
    'x' as u8) {
        Some(6)
    } else if p + 5 <= l.len() && l[p] == ('s' as u8) && l[p + 1] == ('e' as u8) && l[p + 2] == (
    'v' as u8) && l[p + 3] == ('e' as u8) && l[p + 4] == ('n' as u8) {
        Some(7)
    } else if p + 5 <= l.len() && l[p] == ('e' as u8) && l[p + 1] == ('i' as u8) && l[p + 2] == (
    'g' as u8) && l[p + 3] == ('h' as u8) && l[p + 4] == ('t' as u8) {
        Some(8)
    } else if p + 4 <= l.len() && l[p] == ('n' as u8) && l[p + 1] == ('i' as u8) && l[p + 2] == (
    'n' as u8) && l[p + 3] == ('e' as u8) {
        Some(9)
    } else if p + 4 <= l.len() && l[p] == ('z' as u8) && l[p + 1] == ('e' as u8) && l[p + 2] == (
    'r' as u8) && l[p + 3] == ('o' as u8) {
        Some(0)
    } else {
        None
    }
}

/// The earliest named digit at or after `p`.
pub open spec fn first_match(l: Seq<u8>, p: int) -> Option<int>
    decreases l.len() - p
        when 0 <= p <= l.len()
{
    if p >= l.len() {
        None
    } else {
        match match_at(l, p) {
            Some(v) => Some(v),
            None => first_match(l, p + 1),
        }
    }
}

/// The latest named digit at or before `p`.
pub open spec fn last_match(l: Seq<u8>, p: int) -> Option<int>
    decreases p + 1
        when p < l.len()
{
    if p < 0 {
        None
    } else {
        match match_at(l, p) {
            Some(v) => Some(v),
            None => last_match(l, p - 1),
        }
    }
}

/// The calibration value of a line: ten times its first named digit plus
/// its last; `None` when the line names no digit.
pub open spec fn line_value2(l: Seq<u8>) -> Option<int> {
    match (first_match(l, 0), last_match(l, l.len() - 1)) {
        (Some(a), Some(b)) => Some(a * 10 + b),
        _ => None,
    }
}

/// The calibration values of all lines; `None` when a line names none.
pub open spec fn values_model2(ls: Seq<Seq<u8>>) -> Option<Seq<int>>
    decreases ls.len(),
{
    if ls.len() == 0 {
        Some(Seq::empty())
    } else {
        match (line_value2(ls[0]), values_model2(ls.skip(1))) {
            (Some(v), Some(rest)) => Some(seq![v] + rest),
            _ => None,
        }
    }
}

/// Reads the digit named at one position.
fn value_at(l: &[u8], p: usize) -> (r: Option<u32>)
    requires
        p < l@.len(),
    ensures
        match r {
            Some(v) => match_at(l@, p as int) == Some(v as int) && v <= 9,
            None => match_at(l@, p as int) is None,
        },
{
    let n = l.len();
    let c = l[p];
    if ('0' as u8) <= c && c <= ('9' as u8) {
        return Some((c - ('0' as u8)) as u32);
    }
    if n - p >= 3 && l[p] == ('o' as u8) && l[p + 1] == ('n' as u8) && l[p + 2] == ('e' as u8) {
        return Some(1);
    }
    if n - p >= 3 && l[p] == ('t' as u8) && l[p + 1] == ('w' as u8) && l[p + 2] == ('o' as u8) {
        return Some(2);
    }
    if n - p >= 5 && l[p] == ('t' as u8) && l[p + 1] == ('h' as u8) && l[p + 2] == ('r' as u8)
        && l[p + 3] == ('e' as u8) && l[p + 4] == ('e' as u8) {
        return Some(3);
    }
    if n - p >= 4 && l[p] == ('f' as u8) && l[p + 1] == ('o' as u8) && l[p + 2] == ('u' as u8)
        && l[p + 3] == ('r' as u8) {
        return Some(4);
    }
    if n - p >= 4 && l[p] == ('f' as u8) && l[p + 1] == ('i' as u8) && l[p + 2] == ('v' as u8)
        && l[p + 3] == ('e' as u8) {
        return Some(5);
    }
    if n - p >= 3 && l[p] == ('s' as u8) && l[p + 1] == ('i' as u8) && l[p + 2] == ('x' as u8) {
        return Some(6);
    }
    if n - p >= 5 && l[p] == ('s' as u8) && l[p + 1] == ('e' as u8) && l[p + 2] == ('v' as u8)
        && l[p + 3] == ('e' as u8) && l[p + 4] == ('n' as u8) {
        return Some(7);
    }
    if n - p >= 5 && l[p] == ('e' as u8) && l[p + 1] == ('i' as u8) && l[p + 2] == ('g' as u8)
        && l[p + 3] == ('h' as u8) && l[p + 4] == ('t' as u8) {
        return Some(8);
    }
    if n - p >= 4 && l[p] == ('n' as u8) && l[p + 1] == ('i' as u8) && l[p + 2] == ('n' as u8)
        && l[p + 3] == ('e' as u8) {
        return Some(9);
    }
    if n - p >= 4 && l[p] == ('z' as u8) && l[p + 1] == ('e' as u8) && l[p + 2] == ('r' as u8)
        && l[p + 3] == ('o' as u8) {
        return Some(0);
    }
    None
}

/// The name of a digit as a number.
pub fn str_to_u32(s: &[u8]) -> (r: Option<u32>)
    ensures
        match r {
            Some(v) => s@.len() >= 1 && match_at(s@, 0) == Some(v as int),
            None => s@.len() == 0 || match_at(s@, 0) is None,
        },
{
    if s.len() == 0 {
        return None;
    }
    value_at(s, 0)
}

/// Reads the calibration value of one line, words counted as digits.
#[verifier::loop_isolation(false)]
pub fn parse_line(line: &[u8]) -> (r: Option<u32>)
    ensures
        match r {
            Some(v) => line_value2(line@) == Some(v as int) && v <= 99,
            None => line_value2(line@) is None,
        },
{
    let n = line.len();
    let mut first: Option<u32> = None;
    let mut p: usize = 0;
    while p < n
        invariant
            p <= n,
            match first {
                Some(v) => first_match(line@, 0) == Some(v as int) && v <= 9,
                None => first_match(line@, 0) == first_match(line@, p as int),
            },
        decreases n - p,
    {
        if first.is_none() {
            first = value_at(line, p);
        }
        p = p + 1;
    }
    let a = match first {
        None => {
            return None;
        },
        Some(a) => a,
    };
    let mut last: Option<u32> = None;
    let mut q: usize = n;
    while q > 0
        invariant
            q <= n,
            match last {
                Some(v) => last_match(line@, n - 1) == Some(v as int) && v <= 9,
                None => last_match(line@, n - 1) == last_match(line@, q - 1),
            },
        decreases q,
    {
        q = q - 1;
        if last.is_none() {
            last = value_at(line, q);
        }
    }
    let b = match last {
        None => {
            return None;
        },
        Some(b) => b,
    };
    Some(a * 10 + b)
}

/// The sum of the calibration values of every line, words counted.
///
/// `BadInput` comes exactly when some line names no digit.
#[verifier::loop_isolation(false)]
pub fn process(input: &[u8]) -> (r: Result<u32, Error>)
    requires
        split_lines(input@).len() * 99 <= u32::MAX,
    ensures
        match r {
            Ok(n) => match values_model2(split_lines(input@)) {
                Some(vs) => n as int == values_sum(vs),
                None => false,
            },
            Err(e) => e == Error::BadInput && values_model2(split_lines(input@)) is None,
        },
{
    let ghost ls = split_lines(input@);
    let lines = lines_of(input);
    let n = lines.len();
    let mut out: Vec<u32> = Vec::new();
    let mut i: usize = 0;
    proof {
        assert(ls.skip(0) =~= ls);
        match values_model2(ls) {
            Some(full) => {
                assert(out@.map_values(|x: u32| x as int) + full =~= full);
            },
            None => {},
        }
    }
    while i < n
        invariant
            i <= n,
            forall|j: int| 0 <= j < out@.len() ==> #[trigger] out@[j] <= 99,
            match values_model2(ls.skip(i as int)) {
                Some(rest) => values_model2(ls) == Some(
                    out@.map_values(|x: u32| x as int) + rest,
                ),
                None => values_model2(ls) is None,
            },
        decreases n - i,
    {
        proof {
            assert(ls.skip(i as int)[0] == deep(lines@)[i as int]);
            assert(deep(lines@)[i as int] == lines@[i as int]@);
            assert(ls.skip(i as int).skip(1) =~= ls.skip(i + 1));
        }
        let v = match parse_line(lines[i].as_slice()) {
            None => {
                return Err(Error::BadInput);
            },
            Some(v) => v,
        };
        let ghost out0 = out@;
        out.push(v);
        proof {
            assert(out@.map_values(|x: u32| x as int) =~= out0.map_values(|x: u32| x as int).push(
                v as int,
            ));
            match values_model2(ls.skip(i + 1)) {
                Some(rest) => {
                    assert(values_model2(ls.skip(i as int)) == Some(seq![v as int] + rest));
                    assert(out0.map_values(|x: u32| x as int) + (seq![v as int] + rest)
                        =~= out@.map_values(|x: u32| x as int) + rest);
                },
                None => {},
            }
        }
        i = i + 1;
    }
    proof {
        assert(ls.skip(n as int) =~= Seq::<Seq<u8>>::empty());
        assert(out@.map_values(|x: u32| x as int) + Seq::<int>::empty() =~= out@.map_values(
            |x: u32| x as int,
        ));
    }
    let ghost vs = out@.map_values(|x: u32| x as int);
    proof {
        lemma_model2_len(ls, vs);
        assert(vs.take(0) =~= Seq::<int>::empty());
    }
    let m = out.len();
    let mut sum: u32 = 0;
    let mut t: usize = 0;
    while t < m
        invariant
            t <= m,
            sum as int == values_sum(vs.take(t as int)),
            0 <= sum as int <= t * 99,
        decreases m - t,
    {
        proof {
            assert(vs.take(t + 1).drop_last() =~= vs.take(t as int));
            assert(vs.take(t + 1).last() == vs[t as int]);
            assert(vs[t as int] == out@[t as int] as int);
            assert((t + 1) * 99 <= m * 99) by (nonlinear_arith)
                requires
                    t + 1 <= m,
            ;
        }
        sum = sum + out[t];
        t = t + 1;
    }
    proof {
        assert(vs.take(m as int) =~= vs);
    }
    Ok(sum)
}

/// A parsed value list has one value per line.
proof fn lemma_model2_len(ls: Seq<Seq<u8>>, vs: Seq<int>)
    requires
        values_model2(ls) == Some(vs),
    ensures
        vs.len() == ls.len(),
    decreases ls.len(),
{
    if ls.len() > 0 {
        match (line_value2(ls[0]), values_model2(ls.skip(1))) {
            (Some(v), Some(rest)) => {
                lemma_model2_len(ls.skip(1), rest);
            },
            _ => {},
        }
    }
}

} // verus!
