//! Calibration values: the first and last digit of each line form a
//! two-digit number, and the answer is the sum over all lines.

use vstd::prelude::*;
use crate::Error;
use crate::text::{digit_val, is_digit, lines_of, split_lines, deep};

verus! {

/// The index of the last digit of a line, if any.
pub open spec fn last_digit_idx(l: Seq<u8>) -> Option<int>
    decreases l.len(),
{
    if l.len() == 0 {
        None
    } else if is_digit(l.last()) {
        Some(l.len() - 1)
    } else {
        last_digit_idx(l.drop_last())
    }
}

/// The index of the first digit of a line at or after `from`, if any.
pub open spec fn first_digit_idx(l: Seq<u8>, from: int) -> Option<int>
    decreases l.len() - from
        when 0 <= from <= l.len()
{
    if from >= l.len() {
        None
    } else if is_digit(l[from]) {
        Some(from)
    } else {
        first_digit_idx(l, from + 1)
    }
}

/// The calibration value of a line: ten times its first digit plus its
/// last digit; `None` when the line has no digit.
pub open spec fn line_value(l: Seq<u8>) -> Option<int> {
    match (first_digit_idx(l, 0), last_digit_idx(l)) {
        (Some(a), Some(b)) => Some(digit_val(l[a]) * 10 + digit_val(l[b])),
        _ => None,
    }
}

proof fn lemma_last_digit_idx(l: Seq<u8>)
    ensures
        match last_digit_idx(l) {
            Some(b) => 0 <= b < l.len() && is_digit(l[b]),
            None => forall|j: int| 0 <= j < l.len() ==> !is_digit(l[j]),
        },
    decreases l.len(),
{
    if l.len() > 0 && !is_digit(l.last()) {
        lemma_last_digit_idx(l.drop_last());
        match last_digit_idx(l.drop_last()) {
            Some(b) => {
                assert(l.drop_last()[b] == l[b]);
            },
            None => {
                assert forall|j: int| 0 <= j < l.len() implies !is_digit(l[j]) by {
                    if j < l.len() - 1 {
                        assert(l.drop_last()[j] == l[j]);
                    }
                }
            },
        }
    }
}

/// Reads the calibration value of one line.
#[verifier::loop_isolation(false)]
pub fn parse_line(line: &[u8]) -> (r: Option<u32>)
    ensures
        match r {
            Some(v) => line_value(line@) == Some(v as int) && v <= 99,
            None => line_value(line@) is None,
        },
{
    let n = line.len();
    let mut first: Option<usize> = None;
    let mut last: Option<usize> = None;
    let mut i: usize = 0;
    proof {
        assert(line@.take(0) =~= Seq::<u8>::empty());
    }
    while i < n
        invariant
            i <= n,
            match first {
                Some(a) => first_digit_idx(line@, 0) == Some(a as int) && a < n,
                None => true,
            },
            first is None ==> forall|j: int| 0 <= j < i ==> !is_digit(line@[j]),
            match last {
                Some(b) => last_digit_idx(line@.take(i as int)) == Some(b as int) && b < n,
                None => last_digit_idx(line@.take(i as int)) is None,
            },
        decreases n - i,
    {
        proof {
            assert(line@.take(i + 1).last() == line@[i as int]);
            assert(line@.take(i + 1).drop_last() =~= line@.take(i as int));
        }
        let c = line[i];
        if ('0' as u8) <= c && c <= ('9' as u8) {
            if first.is_none() {
                proof {
                    lemma_first_digit_from(line@, 0, i as int);
                }
                first = Some(i);
            }
            last = Some(i);
        }
        i = i + 1;
    }
    proof {
        assert(line@.take(n as int) =~= line@);
        if first is None {
            match first_digit_idx(line@, 0) {
                Some(j) => {
                    lemma_first_digit_some(line@, 0);
                    assert(false);
                },
                None => {},
            }
        }
    }
    proof {
        lemma_first_digit_some(line@, 0);
        lemma_last_digit_idx(line@);
    }
    match (first, last) {
        (Some(a), Some(b)) => {
            let va = (line[a] - ('0' as u8)) as u32;
            let vb = (line[b] - ('0' as u8)) as u32;
            Some(va * 10 + vb)
        },
        _ => None,
    }
}

/// A digit found after an all-blank prefix is the first digit.
proof fn lemma_first_digit_from(l: Seq<u8>, from: int, i: int)
    requires
        0 <= from <= i < l.len(),
        forall|j: int| from <= j < i ==> !is_digit(l[j]),
        is_digit(l[i]),
    ensures
        first_digit_idx(l, from) == Some(i),
    decreases i - from,
{
    if from < i {
        lemma_first_digit_from(l, from + 1, i);
    }
}

proof fn lemma_first_digit_some(l: Seq<u8>, from: int)
    requires
        0 <= from <= l.len(),
    ensures
        match first_digit_idx(l, from) {
            Some(j) => from <= j < l.len() && is_digit(l[j]),
            None => true,
        },
    decreases l.len() - from,
{
    if from < l.len() && !is_digit(l[from]) {
        lemma_first_digit_some(l, from + 1);
    }
}

/// The calibration values of all lines; `None` when a line has no digit.
pub open spec fn values_model(ls: Seq<Seq<u8>>) -> Option<Seq<int>>
    decreases ls.len(),
{
    if ls.len() == 0 {
        Some(Seq::empty())
    } else {
        match (line_value(ls[0]), values_model(ls.skip(1))) {
            (Some(v), Some(rest)) => Some(seq![v] + rest),
            _ => None,
        }
    }
}

/// The sum of a row of values.
pub open spec fn values_sum(vs: Seq<int>) -> int
    decreases vs.len(),
{
    if vs.len() == 0 {
        0
    } else {
        values_sum(vs.drop_last()) + vs.last()
    }
}

/// Reads every line's calibration value.
#[verifier::loop_isolation(false)]
pub fn parse_input(input: &[u8]) -> (r: Option<Vec<u32>>)
    ensures
        match r {
            Some(v) => values_model(split_lines(input@)) == Some(
                v@.map_values(|x: u32| x as int),
            ) && forall|j: int| 0 <= j < v@.len() ==> #[trigger] v@[j] <= 99,
            None => values_model(split_lines(input@)) is None,
        },
{
    let ghost ls = split_lines(input@);
    let lines = lines_of(input);
    let n = lines.len();
    let mut out: Vec<u32> = Vec::new();
    let mut i: usize = 0;
    proof {
        assert(ls.skip(0) =~= ls);
        match values_model(ls) {
            Some(full) => {
                assert(out@.map_values(|x: u32| x as int) + full =~= full);
            },
            None => {},
        }
    }
    while i < n
        invariant
            i <= n,
            forall|j: int| 0 <= j < out@.len() ==> #[trigger] out@[j] <= 99,
            match values_model(ls.skip(i as int)) {
                Some(rest) => values_model(ls) == Some(
                    out@.map_values(|x: u32| x as int) + rest,
                ),
                None => values_model(ls) is None,
            },
        decreases n - i,
    {
        proof {
            assert(ls.skip(i as int)[0] == deep(lines@)[i as int]);
            assert(deep(lines@)[i as int] == lines@[i as int]@);
            assert(ls.skip(i as int).skip(1) =~= ls.skip(i + 1));
        }
        let v = match parse_line(lines[i].as_slice()) {
            None => {
                return None;
            },
            Some(v) => v,
        };
        let ghost out0 = out@;
        out.push(v);
        proof {
            assert(out@.map_values(|x: u32| x as int) =~= out0.map_values(|x: u32| x as int).push(
                v as int,
            ));
            match values_model(ls.skip(i + 1)) {
                Some(rest) => {
                    assert(values_model(ls.skip(i as int)) == Some(seq![v as int] + rest));
                    assert(out0.map_values(|x: u32| x as int) + (seq![v as int] + rest)
                        =~= out@.map_values(|x: u32| x as int) + rest);
                },
                None => {},
            }
        }
        i = i + 1;
    }
    proof {
        assert(ls.skip(n as int) =~= Seq::<Seq<u8>>::empty());
        assert(out@.map_values(|x: u32| x as int) + Seq::<int>::empty() =~= out@.map_values(
            |x: u32| x as int,
        ));
    }
    Some(out)
}

/// The sum of the calibration values of every line.
///
/// `BadInput` comes exactly when some line holds no digit.
#[verifier::loop_isolation(false)]
pub fn process(input: &[u8]) -> (r: Result<u32, Error>)
    requires
        split_lines(input@).len() * 99 <= u32::MAX,
    ensures
        match r {
            Ok(n) => match values_model(split_lines(input@)) {
                Some(vs) => n as int == values_sum(vs),
                None => false,
            },
            Err(e) => e == Error::BadInput && values_model(split_lines(input@)) is None,
        },
{
    let ghost ls = split_lines(input@);
    let values = match parse_input(input) {
        None => {
            return Err(Error::BadInput);
        },
        Some(v) => v,
    };
    let ghost vs = values@.map_values(|x: u32| x as int);
    proof {
        lemma_model_len(ls, vs);
    }
    let n = values.len();
    let mut sum: u32 = 0;
    let mut i: usize = 0;
    proof {
        assert(vs.take(0) =~= Seq::<int>::empty());
    }
    while i < n
        invariant
            i <= n,
            sum as int == values_sum(vs.take(i as int)),
            0 <= sum as int <= i * 99,
        decreases n - i,
    {
        proof {
            assert(vs.take(i + 1).drop_last() =~= vs.take(i as int));
            assert(vs.take(i + 1).last() == vs[i as int]);
            assert(vs[i as int] == values@[i as int] as int);
            assert(i + 1 <= n);
            assert((i + 1) * 99 <= n * 99) by (nonlinear_arith)
                requires
                    i + 1 <= n,
            ;
        }
        sum = sum + values[i];
        i = i + 1;
    }
    proof {
        assert(vs.take(n as int) =~= vs);
    }
    Ok(sum)
}

/// A parsed value list has one value per line.
proof fn lemma_model_len(ls: Seq<Seq<u8>>, vs: Seq<int>)
    requires
        values_model(ls) == Some(vs),
    ensures
        vs.len() == ls.len(),
    decreases ls.len(),
{
    if ls.len() > 0 {
        match (line_value(ls[0]), values_model(ls.skip(1))) {
            (Some(v), Some(rest)) => {
                lemma_model_len(ls.skip(1), rest);
            },
            _ => {},
        }
    }
}


} // verus!
