//! Spring records: count the ways the unknown springs of a row can be
//! assigned so the damaged runs match the given lengths.

use vstd::prelude::*;
use crate::Error;
use crate::text::{
    digits_end, lines_of, num_value, scan_u64, split_lines, lemma_digits_end, deep};

verus! {

/// The state of one spring.
#[derive(Clone, Copy, Debug, PartialEq, Eq, Structural)]
pub enum Spring {
    Operational,
    Damaged,
    Unknown,
}

/// Whether a damaged run of length `k` can start at the head of `s`: no
/// operational spring inside it and no damaged spring right after it.
pub open spec fn can_place(s: Seq<Spring>, k: int) -> bool {
    &&& 0 <= k <= s.len()
    &&& forall|i: int| 0 <= i < k ==> s[i] != Spring::Operational
    &&& (k == s.len() || s[k] != Spring::Damaged)
}

/// How many springs a damaged run of length `k` consumes: the run and the
/// separating spring after it, when one exists.
pub open spec fn place_len(s: Seq<Spring>, k: int) -> int {
    if k == s.len() {
        k
    } else {
        k + 1
    }
}

/// The number of assignments of the unknown springs under which the
/// damaged runs have exactly the lengths of `r`, in order.
pub open spec fn count_arr(s: Seq<Spring>, r: Seq<int>) -> int
    decreases s.len(), r.len(),
{
    if r.len() == 0 {
        if forall|i: int| 0 <= i < s.len() ==> s[i] != Spring::Damaged {
            1
        } else {
            0
        }
    } else if s.len() == 0 {
        0
    } else {
        let skip_c = if s[0] != Spring::Damaged {
            count_arr(s.skip(1), r)
        } else {
            0
        };
        let place_c = if can_place(s, r[0]) {
            count_arr(s.skip(place_len(s, r[0])), r.skip(1))
        } else {
            0
        };
        skip_c + place_c
    }
}

/// A count of assignments is never negative.
pub proof fn lemma_count_nonneg(s: Seq<Spring>, r: Seq<int>)
    ensures
        count_arr(s, r) >= 0,
    decreases s.len(), r.len(),
{
    if r.len() != 0 && s.len() != 0 {
        if s[0] != Spring::Damaged {
            lemma_count_nonneg(s.skip(1), r);
        }
        if can_place(s, r[0]) {
            lemma_count_nonneg(s.skip(place_len(s, r[0])), r.skip(1));
        }
    }
}

/// The views of a record list.
pub open spec fn rec_ints(r: Seq<usize>) -> Seq<int> {
    Seq::new(r.len(), |i: int| r[i] as int)
}

/// One row of springs with its damaged-run record.
pub struct SpringProblem<'a> {
    pub springs: &'a [Spring],
    pub record: &'a [usize],
}

/// Counts the assignments for the suffixes starting at `i` and `j`.
#[verifier::loop_isolation(false)]
fn count_from(s: &[Spring], i: usize, r: &[usize], j: usize) -> (c: u32)
    requires
        i <= s@.len(),
        j <= r@.len(),
        count_arr(s@.skip(i as int), rec_ints(r@).skip(j as int)) <= u32::MAX,
    ensures
        c as int == count_arr(s@.skip(i as int), rec_ints(r@).skip(j as int)),
    decreases s@.len() - i, r@.len() - j,
{
    let ghost ss = s@.skip(i as int);
    let ghost rr = rec_ints(r@).skip(j as int);
    if j == r.len() {
        let n = s.len();
        let mut t: usize = i;
        while t < n
            invariant
                i <= t <= n,
                forall|q: int| i <= q < t ==> s@[q] != Spring::Damaged,
            decreases n - t,
        {
            if s[t] == Spring::Damaged {
                proof {
                    assert(ss[t - i] == Spring::Damaged);
                }
                return 0;
            }
            t = t + 1;
        }
        proof {
            assert forall|q: int| 0 <= q < ss.len() implies ss[q] != Spring::Damaged by {
                assert(ss[q] == s@[i + q]);
            }
        }
        return 1;
    }
    if i == s.len() {
        return 0;
    }
    proof {
        assert(ss[0] == s@[i as int]);
        assert(ss.skip(1) =~= s@.skip(i + 1));
        assert(rr[0] == r@[j as int] as int);
        assert(rr.skip(1) =~= rec_ints(r@).skip(j + 1));
        lemma_count_nonneg(ss.skip(1), rr);
        lemma_count_nonneg(ss, rr);
        if can_place(ss, rr[0]) {
            lemma_count_nonneg(ss.skip(place_len(ss, rr[0])), rr.skip(1));
        }
    }
    let skip_c: u32 = if s[i] != Spring::Damaged {
        count_from(s, i + 1, r, j)
    } else {
        0
    };
    let k = r[j];
    // check whether a run of length k can start here
    let fits = k <= s.len() - i;
    let mut ok = fits;
    if fits {
        let mut t: usize = 0;
        while t < k && ok
            invariant
                t <= k,
                k + i <= s@.len(),
                ok ==> forall|q: int| 0 <= q < t ==> ss[q] != Spring::Operational,
                !ok ==> !can_place(ss, k as int),
            decreases k - t,
        {
            if s[i + t] == Spring::Operational {
                proof {
                    assert(ss[t as int] == Spring::Operational);
                    assert(!can_place(ss, k as int));
                }
                ok = false;
            }
            proof {
                if ok {
                    assert(ss[t as int] == s@[i + t]);
                }
            }
            t = t + 1;
        }
        if ok && i + k < s.len() {
            if s[i + k] == Spring::Damaged {
                proof {
                    assert(ss[k as int] == Spring::Damaged);
                    assert(!can_place(ss, k as int));
                }
                ok = false;
            }
        }
    } else {
        proof {
            assert(k > ss.len());
            assert(!can_place(ss, k as int));
        }
    }
    let place_c: u32 = if ok {
        proof {
            assert(can_place(ss, k as int));
            assert(ss.skip(place_len(ss, k as int)) =~= s@.skip(i + place_len(ss, k as int)));
            lemma_count_nonneg(ss.skip(place_len(ss, k as int)), rr.skip(1));
        }
        if k == s.len() - i {
            count_from(s, s.len(), r, j + 1)
        } else {
            count_from(s, i + k + 1, r, j + 1)
        }
    } else {
        proof {
            if can_place(ss, rr[0]) {
                assert(false);
            }
        }
        0
    };
    skip_c + place_c
}

impl<'a> SpringProblem<'a> {
    /// Adds to `solution_count` the number of assignments of the unknown
    /// springs whose damaged runs are exactly the record, in order.
    pub fn arrangements(&self, solution_count: u32) -> (c: u32)
        requires
            solution_count + count_arr(self.springs@, rec_ints(self.record@)) <= u32::MAX,
        ensures
            c as int == solution_count + count_arr(self.springs@, rec_ints(self.record@)),
    {
        proof {
            assert(self.springs@.skip(0) =~= self.springs@);
            assert(rec_ints(self.record@).skip(0) =~= rec_ints(self.record@));
            lemma_count_nonneg(self.springs@, rec_ints(self.record@));
        }
        let c = count_from(self.springs, 0, self.record, 0);
        solution_count + c
    }
}

/// Index of the first plain space at or after `from`, or the length.
pub open spec fn space_break(l: Seq<u8>, from: int) -> int
    decreases l.len() - from
        when 0 <= from <= l.len()
{
    if from >= l.len() || l[from] == (' ' as u8) {
        from
    } else {
        space_break(l, from + 1)
    }
}

proof fn lemma_space_break(l: Seq<u8>, from: int)
    requires
        0 <= from <= l.len(),
    ensures
        from <= space_break(l, from) <= l.len(),
        forall|j: int| from <= j < space_break(l, from) ==> l[j] != (' ' as u8),
        space_break(l, from) < l.len() ==> l[space_break(l, from)] == (' ' as u8),
    decreases l.len() - from,
{
    if from < l.len() && l[from] != (' ' as u8) {
        lemma_space_break(l, from + 1);
    }
}

/// The spring a byte denotes, if any.
pub open spec fn spring_of(c: u8) -> Option<Spring> {
    if c == ('?' as u8) {
        Some(Spring::Unknown)
    } else if c == ('#' as u8) {
        Some(Spring::Damaged)
    } else if c == ('.' as u8) {
        Some(Spring::Operational)
    } else {
        None
    }
}

/// The springs the bytes `l[from..to)` denote, or `None` on a bad byte.
pub open spec fn springs_of(l: Seq<u8>, from: int, to: int) -> Option<Seq<Spring>>
    decreases to - from
        when from <= to
{
    if from >= to {
        Some(Seq::empty())
    } else {
        match (spring_of(l[from]), springs_of(l, from + 1, to)) {
            (Some(sp), Some(rest)) => Some(seq![sp] + rest),
            _ => None,
        }
    }
}

/// The comma-separated run lengths from `from` to the end of the line;
/// `None` when a piece is not a number fitting `usize`.
pub open spec fn csv_nums(l: Seq<u8>, from: int) -> Option<Seq<int>>
    decreases l.len() - from via csv_nums_decreases
{
    if 0 <= from <= l.len() {
        let e = digits_end(l, from);
        if e == from || num_value(l, from, e) > usize::MAX {
            None
        } else if e == l.len() {
            Some(seq![num_value(l, from, e)])
        } else if l[e] == (',' as u8) {
            match csv_nums(l, e + 1) {
                None => None,
                Some(rest) => Some(seq![num_value(l, from, e)] + rest),
            }
        } else {
            None
        }
    } else {
        None
    }
}

#[via_fn]
proof fn csv_nums_decreases(l: Seq<u8>, from: int) {
    if 0 <= from <= l.len() {
        lemma_digits_end(l, from);
    }
}

/// The springs and run record one line denotes.
pub open spec fn line_model(l: Seq<u8>) -> Option<(Seq<Spring>, Seq<int>)> {
    let sp = space_break(l, 0);
    if sp >= l.len() {
        None
    } else {
        match (springs_of(l, 0, sp), csv_nums(l, sp + 1)) {
            (Some(sps), Some(rec)) => Some((sps, rec)),
            _ => None,
        }
    }
}

/// Reads one line: the spring row, a space, and the damaged-run record.
#[verifier::loop_isolation(false)]
pub fn parse_line(line: &[u8]) -> (r: Option<(Vec<Spring>, Vec<usize>)>)
    ensures
        match r {
            Some((sps, rec)) => line_model(line@) == Some((sps@, rec_ints(rec@))),
            None => line_model(line@) is None,
        },
{
    proof {
        lemma_space_break(line@, 0);
    }
    let mut sp: usize = 0;
    while sp < line.len() && line[sp] != (' ' as u8)
        invariant
            sp <= space_break(line@, 0),
        decreases line@.len() - sp,
    {
        proof {
            if sp + 1 < space_break(line@, 0) {
                assert(line@[sp + 1] != (' ' as u8));
            }
        }
        sp = sp + 1;
    }
    proof {
        assert(sp == space_break(line@, 0));
    }
    if sp == line.len() {
        return None;
    }
    let mut sps: Vec<Spring> = Vec::new();
    let mut i: usize = 0;
    proof {
        match springs_of(line@, 0, sp as int) {
            Some(full) => {
                assert(sps@ + full =~= full);
            },
            None => {},
        }
    }
    while i < sp
        invariant
            i <= sp,
            match springs_of(line@, i as int, sp as int) {
                Some(rest) => springs_of(line@, 0, sp as int) == Some(sps@ + rest),
                None => springs_of(line@, 0, sp as int) is None,
            },
        decreases sp - i,
    {
        let c = line[i];
        let ghost sps0 = sps@;
        let one = if c == ('?' as u8) {
            Spring::Unknown
        } else if c == ('#' as u8) {
            Spring::Damaged
        } else if c == ('.' as u8) {
            Spring::Operational
        } else {
            return None;
        };
        sps.push(one);
        proof {
            match springs_of(line@, i + 1, sp as int) {
                Some(rest) => {
                    assert(springs_of(line@, i as int, sp as int) == Some(seq![one] + rest));
                    assert(sps0 + (seq![one] + rest) =~= sps@ + rest);
                },
                None => {},
            }
        }
        i = i + 1;
    }
    proof {
        assert(springs_of(line@, sp as int, sp as int) == Some(Seq::<Spring>::empty()));
        match springs_of(line@, 0, sp as int) {
            Some(full) => {
                assert(sps@ + Seq::<Spring>::empty() =~= sps@);
            },
            None => {},
        }
    }
    let mut rec: Vec<usize> = Vec::new();
    let mut pos: usize = sp + 1;
    proof {
        match csv_nums(line@, pos as int) {
            Some(full) => {
                assert(rec_ints(rec@) + full =~= full);
            },
            None => {},
        }
    }
    loop
        invariant
            sp + 1 <= pos <= line@.len(),
            match csv_nums(line@, pos as int) {
                Some(rest) => csv_nums(line@, sp + 1) == Some(rec_ints(rec@) + rest),
                None => csv_nums(line@, sp + 1) is None,
            },
        decreases line@.len() - pos,
    {
        proof {
            lemma_digits_end(line@, pos as int);
        }
        match scan_u64(line, pos) {
            None => {
                return None;
            },
            Some((e, v)) => {
                if v > usize::MAX as u64 {
                    return None;
                }
                let ghost rec0 = rec@;
                rec.push(v as usize);
                proof {
                    assert(rec_ints(rec@) =~= rec_ints(rec0).push(v as int));
                }
                if e == line.len() {
                    proof {
                        assert(csv_nums(line@, pos as int) == Some(seq![v as int]));
                        assert(rec_ints(rec0) + seq![v as int] =~= rec_ints(rec@));
                        match csv_nums(line@, sp + 1) {
                            Some(full) => {
                                assert(rec_ints(rec@) + Seq::<int>::empty() =~= rec_ints(rec@));
                            },
                            None => {},
                        }
                    }
                    return Some((sps, rec));
                }
                if line[e] != (',' as u8) {
                    return None;
                }
                proof {
                    match csv_nums(line@, e + 1) {
                        Some(rest) => {
                            assert(csv_nums(line@, pos as int) == Some(seq![v as int] + rest));
                            assert(rec_ints(rec0) + (seq![v as int] + rest) =~= rec_ints(rec@)
                                + rest);
                        },
                        None => {},
                    }
                }
                pos = e + 1;
            },
        }
    }
}

/// The rows of the whole input, or `None` when a line is bad.
pub open spec fn day12_rows(ls: Seq<Seq<u8>>) -> Option<Seq<(Seq<Spring>, Seq<int>)>>
    decreases ls.len(),
{
    if ls.len() == 0 {
        Some(Seq::empty())
    } else {
        match (line_model(ls[0]), day12_rows(ls.skip(1))) {
            (Some(row), Some(rest)) => Some(seq![row] + rest),
            _ => None,
        }
    }
}

/// The sum of the arrangement counts of all rows, left to right.
pub open spec fn rows_total(rows: Seq<(Seq<Spring>, Seq<int>)>) -> int
    decreases rows.len(),
{
    if rows.len() == 0 {
        0
    } else {
        rows_total(rows.drop_last()) + count_arr(rows.last().0, rows.last().1)
    }
}

/// Whether every partial sum of the arrangement counts fits `u32`.
pub open spec fn rows_fit(rows: Seq<(Seq<Spring>, Seq<int>)>) -> bool {
    forall|i: int| 0 <= i <= rows.len() ==> 0 <= #[trigger] rows_total(rows.take(i)) <= u32::MAX
}

/// The rows of the longest parseable prefix of the lines.
pub open spec fn prefix_rows(ls: Seq<Seq<u8>>) -> Seq<(Seq<Spring>, Seq<int>)>
    decreases ls.len(),
{
    if ls.len() == 0 {
        Seq::empty()
    } else {
        match line_model(ls[0]) {
            None => Seq::empty(),
            Some(row) => seq![row] + prefix_rows(ls.skip(1)),
        }
    }
}

/// The total number of arrangements over every line of the input.
///
/// `BadInput` comes exactly when some line is not a spring row, a space,
/// and a comma-separated run record.
#[verifier::loop_isolation(false)]
pub fn process(input: &[u8]) -> (r: Result<u32, Error>)
    requires
        rows_fit(prefix_rows(split_lines(input@))),
    ensures
        match r {
            Ok(n) => match day12_rows(split_lines(input@)) {
                Some(rows) => n as int == rows_total(rows),
                None => false,
            },
            Err(e) => e == Error::BadInput && day12_rows(split_lines(input@)) is None,
        },
{
    let ghost ls = split_lines(input@);
    let lines = lines_of(input);
    let n = lines.len();
    let mut sum: u32 = 0;
    let mut i: usize = 0;
    let ghost done: Seq<(Seq<Spring>, Seq<int>)> = Seq::empty();
    let mut rows_seen: Ghost<Seq<(Seq<Spring>, Seq<int>)>> = Ghost(done);
    proof {
        assert(ls.skip(0) =~= ls);
        assert(rows_seen@ + prefix_rows(ls) =~= prefix_rows(ls));
        match day12_rows(ls) {
            Some(rest) => {
                assert(rows_seen@ + rest =~= rest);
            },
            None => {},
        }
    }
    while i < n
        invariant
            i <= n,
            rows_seen@.len() == i,
            sum as int == rows_total(rows_seen@),
            rows_total(rows_seen@) >= 0,
            prefix_rows(ls) == rows_seen@ + prefix_rows(ls.skip(i as int)),
            match day12_rows(ls.skip(i as int)) {
                Some(rest) => day12_rows(ls) == Some(rows_seen@ + rest),
                None => day12_rows(ls) is None,
            },
        decreases n - i,
    {
        proof {
            assert(ls.skip(i as int)[0] == deep(lines@)[i as int]);
            assert(deep(lines@)[i as int] == lines@[i as int]@);
            assert(ls.skip(i as int).skip(1) =~= ls.skip(i + 1));
        }
        let (sps, rec) = match parse_line(lines[i].as_slice()) {
            None => {
                proof {
                    assert(day12_rows(ls.skip(i as int)) is None);
                }
                return Err(Error::BadInput);
            },
            Some(x) => x,
        };
        let ghost row = (sps@, rec_ints(rec@));
        proof {
            lemma_count_nonneg(row.0, row.1);
            assert(prefix_rows(ls.skip(i as int)) == seq![row] + prefix_rows(ls.skip(i + 1)));
            assert(rows_seen@ + (seq![row] + prefix_rows(ls.skip(i + 1))) =~= (rows_seen@ + seq![
                row,
            ]) + prefix_rows(ls.skip(i + 1)));
            assert(prefix_rows(ls) == (rows_seen@ + seq![row]) + prefix_rows(ls.skip(i + 1)));
            assert(prefix_rows(ls).take(i + 1) =~= rows_seen@ + seq![row]);
            assert((rows_seen@ + seq![row]).drop_last() =~= rows_seen@);
            assert(rows_total(prefix_rows(ls).take(i + 1)) <= u32::MAX);
            assert(rows_total(rows_seen@ + seq![row]) == rows_total(rows_seen@) + count_arr(
                row.0,
                row.1,
            ));
            match day12_rows(ls.skip(i + 1)) {
                Some(rest) => {
                    assert(day12_rows(ls.skip(i as int)) == Some(seq![row] + rest));
                    assert(rows_seen@ + (seq![row] + rest) =~= (rows_seen@ + seq![row]) + rest);
                },
                None => {
                    assert(day12_rows(ls.skip(i as int)) is None);
                },
            }
        }
        let problem = SpringProblem { springs: sps.as_slice(), record: rec.as_slice() };
        let c = problem.arrangements(0);
        sum = sum + c;
        rows_seen = Ghost(rows_seen@ + seq![row]);
        i = i + 1;
    }
    proof {
        assert(ls.skip(n as int) =~= Seq::<Seq<u8>>::empty());
        assert(rows_seen@ + Seq::<(Seq<Spring>, Seq<int>)>::empty() =~= rows_seen@);
    }
    Ok(sum)
}

} // verus!
