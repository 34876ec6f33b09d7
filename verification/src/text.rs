//! Byte-level scanning helpers shared by the day modules.
//!
//! The puzzle inputs are ASCII text; every parser in this crate works on
//! `&[u8]` with positions into the slice, and its contract is stated over
//! the spec functions defined here.

use vstd::prelude::*;

verus! {

/// True of the ASCII digit bytes `'0'..='9'`.
pub open spec fn is_digit(b: u8) -> bool {
    ('0' as u8) <= b && b <= ('9' as u8)
}

/// Numeric value of an ASCII digit byte.
pub open spec fn digit_val(b: u8) -> int {
    b - ('0' as u8)
}

/// True of the blank bytes that separate tokens on a line.
pub open spec fn is_space(b: u8) -> bool {
    b == (' ' as u8) || b == ('\t' as u8)
}

/// Index of the first byte at or after `from` that is not an ASCII digit.
pub open spec fn digits_end(s: Seq<u8>, from: int) -> int
    decreases s.len() - from
        when 0 <= from <= s.len()
{
    if from >= s.len() || !is_digit(s[from]) {
        from
    } else {
        digits_end(s, from + 1)
    }
}

/// Index of the first byte at or after `from` that is not blank.
pub open spec fn spaces_end(s: Seq<u8>, from: int) -> int
    decreases s.len() - from
        when 0 <= from <= s.len()
{
    if from >= s.len() || !is_space(s[from]) {
        from
    } else {
        spaces_end(s, from + 1)
    }
}

/// Value of the decimal digits `s[from..to)`, most significant first.
pub open spec fn num_value(s: Seq<u8>, from: int, to: int) -> int
    decreases to - from
        when from <= to
{
    if to <= from {
        0
    } else {
        num_value(s, from, to - 1) * 10 + digit_val(s[to - 1])
    }
}

pub proof fn lemma_digits_end(s: Seq<u8>, from: int)
    requires
        0 <= from <= s.len(),
    ensures
        from <= digits_end(s, from) <= s.len(),
        forall|j: int| from <= j < digits_end(s, from) ==> is_digit(s[j]),
        digits_end(s, from) < s.len() ==> !is_digit(s[digits_end(s, from)]),
    decreases s.len() - from,
{
    if from < s.len() && is_digit(s[from]) {
        lemma_digits_end(s, from + 1);
    }
}

pub proof fn lemma_spaces_end(s: Seq<u8>, from: int)
    requires
        0 <= from <= s.len(),
    ensures
        from <= spaces_end(s, from) <= s.len(),
        forall|j: int| from <= j < spaces_end(s, from) ==> is_space(s[j]),
        spaces_end(s, from) < s.len() ==> !is_space(s[spaces_end(s, from)]),
    decreases s.len() - from,
{
    if from < s.len() && is_space(s[from]) {
        lemma_spaces_end(s, from + 1);
    }
}

/// The value of a digit run never shrinks as the run extends to the right.
pub proof fn lemma_num_value_mono(s: Seq<u8>, from: int, t1: int, t2: int)
    requires
        from <= t1 <= t2,
        forall|j: int| t1 <= j < t2 ==> 0 <= #[trigger] s[j] - ('0' as u8),
        num_value(s, from, t1) >= 0,
    ensures
        num_value(s, from, t2) >= num_value(s, from, t1),
        num_value(s, from, t2) >= 0,
    decreases t2 - t1,
{
    if t2 > t1 {
        lemma_num_value_mono(s, from, t1, t2 - 1);
    }
}

/// The value of a nonempty digit run is nonnegative.
pub proof fn lemma_num_value_nonneg(s: Seq<u8>, from: int, to: int)
    requires
        from <= to,
        forall|j: int| from <= j < to ==> 0 <= #[trigger] s[j] - ('0' as u8),
    ensures
        num_value(s, from, to) >= 0,
{
    lemma_num_value_mono(s, from, from, to);
}

/// Reads a run of decimal digits starting exactly at `from`.
///
/// Returns the position one past the run and its value; `None` when no
/// digit stands at `from` or the value does not fit in `u64`.
pub fn scan_u64(s: &[u8], from: usize) -> (r: Option<(usize, u64)>)
    requires
        from <= s@.len(),
    ensures
        match r {
            Some((e, v)) => {
                &&& e == digits_end(s@, from as int)
                &&& from < e <= s@.len()
                &&& v == num_value(s@, from as int, e as int)
            },
            None => digits_end(s@, from as int) == from || num_value(
                s@,
                from as int,
                digits_end(s@, from as int),
            ) > u64::MAX,
        },
{
    proof {
        lemma_digits_end(s@, from as int);
    }
    let ghost end = digits_end(s@, from as int);
    let mut i: usize = from;
    let mut acc: u64 = 0;
    if i == s.len() || !(('0' as u8) <= s[i] && s[i] <= ('9' as u8)) {
        return None;
    }
    while i < s.len() && ('0' as u8) <= s[i] && s[i] <= ('9' as u8)
        invariant
            from <= i <= s@.len(),
            i <= end <= s@.len(),
            end == digits_end(s@, from as int),
            forall|j: int| from <= j < end ==> is_digit(s@[j]),
            end < s@.len() ==> !is_digit(s@[end as int]),
            acc == num_value(s@, from as int, i as int),
        decreases s@.len() - i,
    {
        proof {
            lemma_num_value_nonneg(s@, from as int, i as int);
        }
        let d = (s[i] - ('0' as u8)) as u64;
        let next = match acc.checked_mul(10) {
            Some(t) => t.checked_add(d),
            None => None,
        };
        match next {
            Some(t) => {
                acc = t;
            },
            None => {
                proof {
                    lemma_num_value_mono(s@, from as int, i + 1, end as int);
                }
                return None;
            },
        }
        i = i + 1;
        proof {
            if i < end {
                assert(is_digit(s@[i as int]));
            }
        }
    }
    Some((i, acc))
}

/// Moves `from` past any run of blank bytes.
pub fn skip_spaces(s: &[u8], from: usize) -> (r: usize)
    requires
        from <= s@.len(),
    ensures
        r == spaces_end(s@, from as int),
        from <= r <= s@.len(),
{
    proof {
        lemma_spaces_end(s@, from as int);
    }
    let mut i: usize = from;
    while i < s.len() && (s[i] == (' ' as u8) || s[i] == ('\t' as u8))
        invariant
            from <= i <= s@.len(),
            i <= spaces_end(s@, from as int),
            forall|j: int| from <= j < spaces_end(s@, from as int) ==> is_space(s@[j]),
            spaces_end(s@, from as int) < s@.len() ==> !is_space(
                s@[spaces_end(s@, from as int)],
            ),
            spaces_end(s@, from as int) <= s@.len(),
        decreases s@.len() - i,
    {
        i = i + 1;
        proof {
            if i < spaces_end(s@, from as int) {
                assert(is_space(s@[i as int]));
            }
        }
    }
    i
}

/// Index of the first line-feed byte at or after `from`, or the length.
pub open spec fn line_break(s: Seq<u8>, from: int) -> int
    decreases s.len() - from
        when 0 <= from <= s.len()
{
    if from >= s.len() || s[from] == ('\n' as u8) {
        from
    } else {
        line_break(s, from + 1)
    }
}

pub proof fn lemma_line_break(s: Seq<u8>, from: int)
    requires
        0 <= from <= s.len(),
    ensures
        from <= line_break(s, from) <= s.len(),
        forall|j: int| from <= j < line_break(s, from) ==> s[j] != ('\n' as u8),
        line_break(s, from) < s.len() ==> s[line_break(s, from)] == ('\n' as u8),
    decreases s.len() - from,
{
    if from < s.len() && s[from] != ('\n' as u8) {
        lemma_line_break(s, from + 1);
    }
}

/// A line with its trailing carriage return removed, if it carries one.
pub open spec fn strip_cr(l: Seq<u8>) -> Seq<u8> {
    if l.len() > 0 && l.last() == ('\r' as u8) {
        l.drop_last()
    } else {
        l
    }
}

/// The lines of the text, split at line feeds, each without its line
/// ending; empty text has no lines.
pub open spec fn split_lines(s: Seq<u8>) -> Seq<Seq<u8>>
    decreases s.len() via split_lines_decreases
{
    if s.len() == 0 {
        Seq::empty()
    } else {
        let e = line_break(s, 0);
        let rest = if e < s.len() {
            split_lines(s.skip(e + 1))
        } else {
            Seq::empty()
        };
        seq![strip_cr(s.take(e))] + rest
    }
}

#[via_fn]
proof fn split_lines_decreases(s: Seq<u8>) {
    if s.len() > 0 {
        lemma_line_break(s, 0);
    }
}

/// Finds the next line feed at or after `from`.
pub fn find_newline(s: &[u8], from: usize) -> (r: usize)
    requires
        from <= s@.len(),
    ensures
        r == line_break(s@, from as int),
        from <= r <= s@.len(),
{
    proof {
        lemma_line_break(s@, from as int);
    }
    let mut i: usize = from;
    while i < s.len() && s[i] != ('\n' as u8)
        invariant
            from <= i <= s@.len(),
            i <= line_break(s@, from as int) <= s@.len(),
            forall|j: int| from <= j < line_break(s@, from as int) ==> s@[j] != ('\n' as u8),
            line_break(s@, from as int) < s@.len() ==> s@[line_break(s@, from as int)] == (
            '\n' as u8),
        decreases s@.len() - i,
    {
        i = i + 1;
        proof {
            if i < line_break(s@, from as int) {
                assert(s@[i as int] != ('\n' as u8));
            }
        }
    }
    i
}

/// Copies `s[from..to)` into a fresh vector.
pub fn copy_range(s: &[u8], from: usize, to: usize) -> (r: Vec<u8>)
    requires
        from <= to <= s@.len(),
    ensures
        r@ == s@.subrange(from as int, to as int),
{
    let mut out: Vec<u8> = Vec::new();
    let mut i: usize = from;
    while i < to
        invariant
            from <= i <= to <= s@.len(),
            out@ == s@.subrange(from as int, i as int),
        decreases to - i,
    {
        let b = s[i];
        out.push(b);
        i = i + 1;
        proof {
            assert(out@ =~= s@.subrange(from as int, i as int));
        }
    }
    out
}

/// The views of a list of byte vectors.
pub open spec fn deep(v: Seq<Vec<u8>>) -> Seq<Seq<u8>> {
    v.map_values(|l: Vec<u8>| l@)
}

/// Splits the text into its lines, each without its line ending.
pub fn lines_of(s: &[u8]) -> (r: Vec<Vec<u8>>)
    ensures
        deep(r@) == split_lines(s@),
{
    let mut out: Vec<Vec<u8>> = Vec::new();
    let mut pos: usize = 0;
    let mut done = false;
    proof {
        assert(s@.skip(0) =~= s@);
        assert(deep(out@) =~= Seq::<Seq<u8>>::empty());
        assert(deep(out@) + split_lines(s@) =~= split_lines(s@));
    }
    while !done
        invariant
            pos <= s@.len(),
            !done ==> split_lines(s@) == deep(out@) + split_lines(s@.skip(pos as int)),
            done ==> split_lines(s@) == deep(out@),
        decreases s@.len() - pos, (if done { 0int } else { 1int }),
    {
        if pos == s.len() {
            proof {
                assert(s@.skip(pos as int) =~= Seq::<u8>::empty());
                assert(split_lines(s@.skip(pos as int)) =~= Seq::<Seq<u8>>::empty());
                assert(deep(out@) + Seq::<Seq<u8>>::empty() =~= deep(out@));
            }
            done = true;
        } else {
            let e = find_newline(s, pos);
            let mut line = copy_range(s, pos, e);
            if line.len() > 0 && line[line.len() - 1] == ('\r' as u8) {
                line.pop();
            }
            let ghost tail = s@.skip(pos as int);
            let ghost out0 = out@;
            proof {
                lemma_line_break_shift(s@, pos as int);
                assert(line_break(tail, 0) == e - pos);
                assert(tail.take(e - pos) =~= s@.subrange(pos as int, e as int));
                assert(line@ =~= strip_cr(tail.take(e - pos)));
                if e < s@.len() {
                    assert(tail.skip(e - pos + 1) =~= s@.skip(e + 1));
                    assert(split_lines(tail) == seq![line@] + split_lines(s@.skip(e + 1)));
                } else {
                    assert(split_lines(tail) =~= seq![line@]);
                }
            }
            out.push(line);
            proof {
                assert(deep(out@) =~= deep(out0).push(line@));
                assert(deep(out0).push(line@) =~= deep(out0) + seq![line@]);
                if e < s@.len() {
                    assert((deep(out0) + seq![line@]) + split_lines(s@.skip(e + 1)) =~= deep(out0)
                        + (seq![line@] + split_lines(s@.skip(e + 1))));
                }
            }
            if e < s.len() {
                pos = e + 1;
            } else {
                pos = e;
                done = true;
            }
        }
    }
    out
}

/// Splitting at a line feed commutes with skipping a prefix that holds none.
proof fn lemma_line_break_shift(s: Seq<u8>, pos: int)
    requires
        0 <= pos <= s.len(),
    ensures
        line_break(s.skip(pos), 0) == line_break(s, pos) - pos,
    decreases s.len() - pos,
{
    lemma_line_break(s, pos);
    lemma_line_break(s.skip(pos), 0);
    let a = line_break(s, pos) - pos;
    let b = line_break(s.skip(pos), 0);
    assert(forall|j: int| 0 <= j < s.skip(pos).len() ==> s.skip(pos)[j] == s[pos + j]);
    if b < a {
        assert(s.skip(pos)[b] == s[pos + b]);
    }
    if a < b {
        assert(s.skip(pos)[a] == s[pos + a]);
    }
}

/// Whether two byte strings hold the same bytes.
pub fn bytes_eq(a: &[u8], b: &[u8]) -> (r: bool)
    ensures
        r == (a@ == b@),
{
    if a.len() != b.len() {
        proof {
            assert(a@ !~= b@);
        }
        return false;
    }
    let n = a.len();
    let mut i: usize = 0;
    while i < n
        invariant
            n == a@.len() == b@.len(),
            i <= n,
            forall|j: int| 0 <= j < i ==> a@[j] == b@[j],
        decreases n - i,
    {
        if a[i] != b[i] {
            proof {
                assert(a@ !~= b@);
            }
            return false;
        }
        i = i + 1;
    }
    proof {
        assert(a@ =~= b@);
    }
    true
}

/// True of the ASCII letters.
pub open spec fn is_alpha(b: u8) -> bool {
    (('a' as u8) <= b && b <= ('z' as u8)) || (('A' as u8) <= b && b <= ('Z' as u8))
}

/// Index of the first byte at or after `from` that is not a letter.
pub open spec fn alpha_end(s: Seq<u8>, from: int) -> int
    decreases s.len() - from
        when 0 <= from <= s.len()
{
    if from >= s.len() || !is_alpha(s[from]) {
        from
    } else {
        alpha_end(s, from + 1)
    }
}

pub proof fn lemma_alpha_end(s: Seq<u8>, from: int)
    requires
        0 <= from <= s.len(),
    ensures
        from <= alpha_end(s, from) <= s.len(),
        forall|j: int| from <= j < alpha_end(s, from) ==> is_alpha(s[j]),
        alpha_end(s, from) < s.len() ==> !is_alpha(s[alpha_end(s, from)]),
    decreases s.len() - from,
{
    if from < s.len() && is_alpha(s[from]) {
        lemma_alpha_end(s, from + 1);
    }
}

/// Reads a run of letters starting exactly at `from`; the run's end, or
/// `None` when no letter stands at `from`.
pub fn scan_alpha(s: &[u8], from: usize) -> (r: Option<usize>)
    requires
        from <= s@.len(),
    ensures
        match r {
            Some(e) => e == alpha_end(s@, from as int) && from < e <= s@.len(),
            None => alpha_end(s@, from as int) == from,
        },
{
    proof {
        lemma_alpha_end(s@, from as int);
    }
    let mut i: usize = from;
    while i < s.len() && ((('a' as u8) <= s[i] && s[i] <= ('z' as u8)) || (('A' as u8) <= s[i]
        && s[i] <= ('Z' as u8)))
        invariant
            from <= i <= s@.len(),
            i <= alpha_end(s@, from as int) <= s@.len(),
            forall|j: int| from <= j < alpha_end(s@, from as int) ==> is_alpha(s@[j]),
            alpha_end(s@, from as int) < s@.len() ==> !is_alpha(s@[alpha_end(s@, from as int)]),
        decreases s@.len() - i,
    {
        i = i + 1;
        proof {
            if i < alpha_end(s@, from as int) {
                assert(is_alpha(s@[i as int]));
            }
        }
    }
    if i == from {
        None
    } else {
        Some(i)
    }
}

/// Index of the first blank byte at or after `from`, or the length: the
/// end of the token starting there.
pub open spec fn token_end(s: Seq<u8>, from: int) -> int
    decreases s.len() - from
        when 0 <= from <= s.len()
{
    if from >= s.len() || is_space(s[from]) {
        from
    } else {
        token_end(s, from + 1)
    }
}

pub proof fn lemma_token_end(s: Seq<u8>, from: int)
    requires
        0 <= from <= s.len(),
    ensures
        from <= token_end(s, from) <= s.len(),
        forall|j: int| from <= j < token_end(s, from) ==> !is_space(s[j]),
        token_end(s, from) < s.len() ==> is_space(s[token_end(s, from)]),
    decreases s.len() - from,
{
    if from < s.len() && !is_space(s[from]) {
        lemma_token_end(s, from + 1);
    }
}

/// Moves `from` to the end of the token starting there.
pub fn find_token_end(s: &[u8], from: usize) -> (r: usize)
    requires
        from <= s@.len(),
    ensures
        r == token_end(s@, from as int),
        from <= r <= s@.len(),
{
    proof {
        lemma_token_end(s@, from as int);
    }
    let mut i: usize = from;
    while i < s.len() && !(s[i] == (' ' as u8) || s[i] == ('\t' as u8))
        invariant
            from <= i <= s@.len(),
            i <= token_end(s@, from as int) <= s@.len(),
            forall|j: int| from <= j < token_end(s@, from as int) ==> !is_space(s@[j]),
            token_end(s@, from as int) < s@.len() ==> is_space(s@[token_end(s@, from as int)]),
        decreases s@.len() - i,
    {
        i = i + 1;
        proof {
            if i < token_end(s@, from as int) {
                assert(!is_space(s@[i as int]));
            }
        }
    }
    i
}

/// Index past any run of line endings (bare line feeds or carriage-return
/// line-feed pairs) at `from`.
pub open spec fn newlines_end(s: Seq<u8>, from: int) -> int
    decreases s.len() - from
        when 0 <= from <= s.len()
{
    if from < s.len() && s[from] == ('\n' as u8) {
        newlines_end(s, from + 1)
    } else if from + 1 < s.len() && s[from] == ('\r' as u8) && s[from + 1] == ('\n' as u8) {
        newlines_end(s, from + 2)
    } else {
        from
    }
}

pub proof fn lemma_newlines_end(s: Seq<u8>, from: int)
    requires
        0 <= from <= s.len(),
    ensures
        from <= newlines_end(s, from) <= s.len(),
    decreases s.len() - from,
{
    if from < s.len() && s[from] == ('\n' as u8) {
        lemma_newlines_end(s, from + 1);
    } else if from + 1 < s.len() && s[from] == ('\r' as u8) && s[from + 1] == ('\n' as u8) {
        lemma_newlines_end(s, from + 2);
    }
}

/// Moves `from` past any run of line endings.
pub fn skip_newlines(s: &[u8], from: usize) -> (r: usize)
    requires
        from <= s@.len(),
    ensures
        r == newlines_end(s@, from as int),
        from <= r <= s@.len(),
{
    let mut i: usize = from;
    proof {
        lemma_newlines_end(s@, from as int);
    }
    loop
        invariant
            from <= i <= s@.len(),
            newlines_end(s@, from as int) == newlines_end(s@, i as int),
        decreases s@.len() - i,
    {
        proof {
            lemma_newlines_end(s@, i as int);
        }
        if i < s.len() && s[i] == ('\n' as u8) {
            i = i + 1;
        } else if i < s.len() && s[i] == ('\r' as u8) && i + 1 < s.len() && s[i + 1] == (
        '\n' as u8) {
            i = i + 2;
        } else {
            return i;
        }
    }
}

/// Whether the bytes of `t` stand in `s` at position `from`.
pub open spec fn has_prefix(s: Seq<u8>, from: int, t: Seq<u8>) -> bool {
    0 <= from && from + t.len() <= s.len() && s.subrange(from, from + t.len()) == t
}

/// Tests whether the bytes of `t` stand in `s` at position `from`.
pub fn match_prefix(s: &[u8], from: usize, t: &[u8]) -> (r: bool)
    requires
        from <= s@.len(),
    ensures
        r == has_prefix(s@, from as int, t@),
{
    if s.len() - from < t.len() {
        return false;
    }
    let n = t.len();
    let mut i: usize = 0;
    while i < n
        invariant
            n == t@.len(),
            from + n <= s@.len(),
            s@.len() <= usize::MAX,
            i <= n,
            forall|j: int| 0 <= j < i ==> s@[from + j] == t@[j],
        decreases n - i,
    {
        proof {
            assert(from + i < s@.len());
        }
        if s[from + i] != t[i] {
            proof {
                assert(s@.subrange(from as int, from + t@.len())[i as int] != t@[i as int]);
            }
            return false;
        }
        i = i + 1;
    }
    proof {
        assert(s@.subrange(from as int, from + t@.len()) =~= t@);
    }
    true
}

/// Position one past an optional leading minus sign.
pub open spec fn sign_end(s: Seq<u8>, from: int) -> int {
    if from < s.len() && s[from] == ('-' as u8) {
        from + 1
    } else {
        from
    }
}

/// Value of the optionally signed decimal number starting at `from`.
pub open spec fn int_value(s: Seq<u8>, from: int) -> int {
    let d = sign_end(s, from);
    let e = digits_end(s, d);
    if d > from {
        -num_value(s, d, e)
    } else {
        num_value(s, d, e)
    }
}

/// Reads an optionally signed run of decimal digits starting at `from`.
///
/// Returns the position one past the run and its value; `None` when no
/// digit follows the optional sign or the value does not fit in `i64`.
pub fn scan_i64(s: &[u8], from: usize) -> (r: Option<(usize, i64)>)
    requires
        from <= s@.len(),
    ensures
        match r {
            Some((e, v)) => {
                &&& e == digits_end(s@, sign_end(s@, from as int))
                &&& sign_end(s@, from as int) < e <= s@.len()
                &&& v == int_value(s@, from as int)
            },
            None => digits_end(s@, sign_end(s@, from as int)) == sign_end(s@, from as int)
                || int_value(s@, from as int) > i64::MAX || int_value(s@, from as int) < i64::MIN,
        },
{
    let neg = from < s.len() && s[from] == ('-' as u8);
    let d = if neg {
        from + 1
    } else {
        from
    };
    match scan_u64(s, d) {
        None => {
            proof {
                lemma_digits_end(s@, d as int);
                if digits_end(s@, d as int) != d {
                    lemma_num_value_nonneg(s@, d as int, digits_end(s@, d as int));
                }
            }
            None
        },
        Some((e, v)) => {
            if neg {
                if v <= 9223372036854775807u64 {
                    Some((e, -(v as i64)))
                } else if v == 9223372036854775808u64 {
                    Some((e, i64::MIN))
                } else {
                    None
                }
            } else {
                if v <= 9223372036854775807u64 {
                    Some((e, v as i64))
                } else {
                    None
                }
            }
        },
    }
}

} // verus!
