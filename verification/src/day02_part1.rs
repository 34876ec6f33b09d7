//! Cube games: each line lists the handfuls shown in one game, and a game
//! counts when no colour ever exceeds its allowance.

use vstd::prelude::*;
use crate::Error;
use crate::text::{
    digits_end, has_prefix, is_digit, is_space, lines_of, num_value, spaces_end, split_lines,
    skip_spaces, scan_u64, match_prefix, bytes_eq, copy_range, lemma_spaces_end, lemma_digits_end,
    deep,
};

verus! {

/// True of the bytes the game line is split on.
pub open spec fn is_sep(b: u8) -> bool {
    b == (',' as u8) || b == (':' as u8) || b == (';' as u8) || b == ('|' as u8)
}

/// Index of the first separator at or after `from`, or the length.
pub open spec fn piece_end(l: Seq<u8>, from: int) -> int
    decreases l.len() - from
        when 0 <= from <= l.len()
{
    if from >= l.len() || is_sep(l[from]) {
        from
    } else {
        piece_end(l, from + 1)
    }
}

pub proof fn lemma_piece_end(l: Seq<u8>, from: int)
    requires
        0 <= from <= l.len(),
    ensures
        from <= piece_end(l, from) <= l.len(),
        forall|j: int| from <= j < piece_end(l, from) ==> !is_sep(l[j]),
        piece_end(l, from) < l.len() ==> is_sep(l[piece_end(l, from)]),
    decreases l.len() - from,
{
    if from < l.len() && !is_sep(l[from]) {
        lemma_piece_end(l, from + 1);
    }
}

/// True of the word bytes of a colour name.
pub open spec fn is_word(b: u8) -> bool {
    (('a' as u8) <= b && b <= ('z' as u8)) || (('A' as u8) <= b && b <= ('Z' as u8)) || ((
    '0' as u8) <= b && b <= ('9' as u8)) || b == ('_' as u8)
}

/// Index of the first non-word byte at or after `from`.
pub open spec fn word_end(l: Seq<u8>, from: int) -> int
    decreases l.len() - from
        when 0 <= from <= l.len()
{
    if from >= l.len() || !is_word(l[from]) {
        from
    } else {
        word_end(l, from + 1)
    }
}

pub proof fn lemma_word_end(l: Seq<u8>, from: int)
    requires
        0 <= from <= l.len(),
    ensures
        from <= word_end(l, from) <= l.len(),
        forall|j: int| from <= j < word_end(l, from) ==> is_word(l[j]),
        word_end(l, from) < l.len() ==> !is_word(l[word_end(l, from)]),
    decreases l.len() - from,
{
    if from < l.len() && is_word(l[from]) {
        lemma_word_end(l, from + 1);
    }
}

/// One drawn handful piece `l[a..b)`: blanks, a count, blanks, a colour
/// word, blanks; `None` when the piece reads otherwise.
pub open spec fn draw_at(l: Seq<u8>, a: int, b: int) -> Option<(int, Seq<u8>)> {
    let p = spaces_end(l, a);
    let e = digits_end(l, p);
    let q = spaces_end(l, e);
    let w = word_end(l, q);
    if e > p && e <= b && num_value(l, p, e) <= usize::MAX && q > e && w > q && w <= b
        && spaces_end(l, w) == b {
        Some((num_value(l, p, e), l.subrange(q, w)))
    } else {
        None
    }
}

/// The largest count seen per colour, updated by one draw: a colour keeps
/// its largest count.
pub open spec fn upd_max(m: Seq<(Seq<u8>, int)>, color: Seq<u8>, n: int) -> Seq<(Seq<u8>, int)>
    decreases m.len(),
{
    if m.len() == 0 {
        seq![(color, n)]
    } else if m[0].0 == color {
        if n > m[0].1 {
            seq![(color, n)] + m.skip(1)
        } else {
            m
        }
    } else {
        seq![m[0]] + upd_max(m.skip(1), color, n)
    }
}

/// The largest count a colour reached, or nothing when it never showed.
pub open spec fn get_max(m: Seq<(Seq<u8>, int)>, color: Seq<u8>) -> int
    decreases m.len(),
{
    if m.len() == 0 {
        0
    } else if m[0].0 == color {
        m[0].1
    } else {
        get_max(m.skip(1), color)
    }
}

/// The per-colour maxima over the draw pieces from `from` on.
pub open spec fn draws_from(l: Seq<u8>, from: int, m: Seq<(Seq<u8>, int)>) -> Option<
    Seq<(Seq<u8>, int)>,
>
    decreases l.len() - from via draws_from_decreases
{
    if 0 <= from <= l.len() {
        let b = piece_end(l, from);
        match draw_at(l, from, b) {
            None => None,
            Some((n, color)) => {
                let m2 = upd_max(m, color, n);
                if b >= l.len() {
                    Some(m2)
                } else {
                    draws_from(l, b + 1, m2)
                }
            },
        }
    } else {
        None
    }
}

#[via_fn]
proof fn draws_from_decreases(l: Seq<u8>, from: int, m: Seq<(Seq<u8>, int)>) {
    if 0 <= from <= l.len() {
        lemma_piece_end(l, from);
    }
}

/// The bytes of the word `Game`.
pub open spec fn game_tag() -> Seq<u8> {
    seq![('G' as u8), ('a' as u8), ('m' as u8), ('e' as u8)]
}

/// The bytes of the word `red`.
pub open spec fn red_name() -> Seq<u8> {
    seq![('r' as u8), ('e' as u8), ('d' as u8)]
}

/// The bytes of the word `green`.
pub open spec fn green_name() -> Seq<u8> {
    seq![('g' as u8), ('r' as u8), ('e' as u8), ('e' as u8), ('n' as u8)]
}

/// The bytes of the word `blue`.
pub open spec fn blue_name() -> Seq<u8> {
    seq![('b' as u8), ('l' as u8), ('u' as u8), ('e' as u8)]
}

/// The game number of the header piece `l[0..b)`: blanks, `Game`, blanks,
/// a number, blanks.
pub open spec fn game_number(l: Seq<u8>, b: int) -> Option<int> {
    let p = spaces_end(l, 0);
    if has_prefix(l, p, game_tag()) {
        let q = spaces_end(l, p + 4);
        let e = digits_end(l, q);
        if q > p + 4 && e > q && e <= b && num_value(l, q, e) <= usize::MAX && spaces_end(l, e)
            == b {
            Some(num_value(l, q, e))
        } else {
            None
        }
    } else {
        None
    }
}

/// The per-colour maxima of one whole line's draws.
pub open spec fn line_maxima(l: Seq<u8>) -> Option<Seq<(Seq<u8>, int)>> {
    let b0 = piece_end(l, 0);
    if b0 >= l.len() {
        Some(Seq::<(Seq<u8>, int)>::empty())
    } else {
        draws_from(l, b0 + 1, Seq::empty())
    }
}

/// What one line adds to the sum: its game number when every colour's
/// largest count stays within the allowance, and nothing otherwise;
/// `None` when a handful is unreadable, or the game is possible but its
/// header is not a game header.
pub open spec fn line_score(l: Seq<u8>, maxr: int, maxg: int, maxb: int) -> Option<int> {
    let b0 = piece_end(l, 0);
    match line_maxima(l) {
        None => None,
        Some(m) => {
            if get_max(m, red_name()) <= maxr && get_max(m, green_name()) <= maxg && get_max(
                m,
                blue_name(),
            ) <= maxb {
                game_number(l, b0)
            } else {
                Some(0)
            }
        },
    }
}

/// The sum of the valid game numbers over all lines.
pub open spec fn games_total(ls: Seq<Seq<u8>>, maxr: int, maxg: int, maxb: int) -> Option<int>
    decreases ls.len(),
{
    if ls.len() == 0 {
        Some(0)
    } else {
        match (games_total(ls.drop_last(), maxr, maxg, maxb), line_score(
            ls.last(),
            maxr,
            maxg,
            maxb,
        )) {
            (Some(acc), Some(v)) => Some(acc + v),
            _ => None,
        }
    }
}

/// Builds the word `Game` as bytes.
fn game_tag_bytes() -> (r: Vec<u8>)
    ensures
        r@ =~= game_tag(),
{
    let mut v: Vec<u8> = Vec::new();
    v.push('G' as u8);
    v.push('a' as u8);
    v.push('m' as u8);
    v.push('e' as u8);
    v
}

/// Builds the word `red` as bytes.
fn red_bytes() -> (r: Vec<u8>)
    ensures
        r@ =~= red_name(),
{
    let mut v: Vec<u8> = Vec::new();
    v.push('r' as u8);
    v.push('e' as u8);
    v.push('d' as u8);
    v
}

/// Builds the word `green` as bytes.
fn green_bytes() -> (r: Vec<u8>)
    ensures
        r@ =~= green_name(),
{
    let mut v: Vec<u8> = Vec::new();
    v.push('g' as u8);
    v.push('r' as u8);
    v.push('e' as u8);
    v.push('e' as u8);
    v.push('n' as u8);
    v
}

/// Builds the word `blue` as bytes.
fn blue_bytes() -> (r: Vec<u8>)
    ensures
        r@ =~= blue_name(),
{
    let mut v: Vec<u8> = Vec::new();
    v.push('b' as u8);
    v.push('l' as u8);
    v.push('u' as u8);
    v.push('e' as u8);
    v
}

/// The view of the running maxima list.
pub open spec fn assoc_view(v: Seq<(Vec<u8>, usize)>) -> Seq<(Seq<u8>, int)> {
    v.map_values(|p: (Vec<u8>, usize)| (p.0@, p.1 as int))
}

/// Finds the next separator.
fn find_piece_end(l: &[u8], from: usize) -> (r: usize)
    requires
        from <= l@.len(),
    ensures
        r == piece_end(l@, from as int),
        from <= r <= l@.len(),
{
    proof {
        lemma_piece_end(l@, from as int);
    }
    let mut i: usize = from;
    while i < l.len() && !(l[i] == (',' as u8) || l[i] == (':' as u8) || l[i] == (';' as u8)
        || l[i] == ('|' as u8))
        invariant
            from <= i <= l@.len(),
            i <= piece_end(l@, from as int) <= l@.len(),
            forall|j: int| from <= j < piece_end(l@, from as int) ==> !is_sep(l@[j]),
            piece_end(l@, from as int) < l@.len() ==> is_sep(l@[piece_end(l@, from as int)]),
        decreases l@.len() - i,
    {
        i = i + 1;
        proof {
            if i < piece_end(l@, from as int) {
                assert(!is_sep(l@[i as int]));
            }
        }
    }
    i
}

/// Finds the end of a colour word.
fn find_word_end(l: &[u8], from: usize) -> (r: usize)
    requires
        from <= l@.len(),
    ensures
        r == word_end(l@, from as int),
        from <= r <= l@.len(),
{
    proof {
        lemma_word_end(l@, from as int);
    }
    let mut i: usize = from;
    while i < l.len() && ((('a' as u8) <= l[i] && l[i] <= ('z' as u8)) || (('A' as u8) <= l[i]
        && l[i] <= ('Z' as u8)) || (('0' as u8) <= l[i] && l[i] <= ('9' as u8)) || l[i] == (
    '_' as u8))
        invariant
            from <= i <= l@.len(),
            i <= word_end(l@, from as int) <= l@.len(),
            forall|j: int| from <= j < word_end(l@, from as int) ==> is_word(l@[j]),
            word_end(l@, from as int) < l@.len() ==> !is_word(l@[word_end(l@, from as int)]),
        decreases l@.len() - i,
    {
        i = i + 1;
        proof {
            if i < word_end(l@, from as int) {
                assert(is_word(l@[i as int]));
            }
        }
    }
    i
}

/// Reads one handful piece `l[a..b)`.
#[verifier::loop_isolation(false)]
fn scan_draw(l: &[u8], a: usize, b: usize) -> (r: Option<(usize, Vec<u8>)>)
    requires
        a <= b <= l@.len(),
    ensures
        match r {
            Some((n, c)) => draw_at(l@, a as int, b as int) == Some((n as int, c@)),
            None => draw_at(l@, a as int, b as int) is None,
        },
{
    let p = skip_spaces(l, a);
    proof {
        lemma_digits_end(l@, p as int);
    }
    let (e, n) = match scan_u64(l, p) {
        None => {
            proof {
                if num_value(l@, p as int, digits_end(l@, p as int)) > u64::MAX {
                    crate::text::lemma_num_value_nonneg(
                        l@,
                        p as int,
                        digits_end(l@, p as int),
                    );
                }
            }
            return None;
        },
        Some(x) => x,
    };
    if n > usize::MAX as u64 {
        return None;
    }
    if e > b {
        return None;
    }
    let q = skip_spaces(l, e);
    if q == e {
        return None;
    }
    let w = find_word_end(l, q);
    if w == q || w > b {
        return None;
    }
    let t = skip_spaces(l, w);
    if t != b {
        return None;
    }
    let c = copy_range(l, q, w);
    Some((n as usize, c))
}

/// Raises a colour's recorded maximum to `n` when `n` is larger.
#[verifier::loop_isolation(false)]
fn apply_draw(m: &mut Vec<(Vec<u8>, usize)>, color: Vec<u8>, n: usize)
    ensures
        assoc_view(final(m)@) == upd_max(assoc_view(old(m)@), color@, n as int),
{
    let ghost m0 = assoc_view(m@);
    let len = m.len();
    let mut j: usize = 0;
    proof {
        assert(m0.skip(0) =~= m0);
    }
    while j < len
        invariant
            j <= len,
            len == m@.len(),
            assoc_view(m@) == m0,
            forall|t: int| 0 <= t < j ==> (#[trigger] m0[t]).0 != color@,
            upd_max(m0, color@, n as int) == m0.take(j as int) + upd_max(
                m0.skip(j as int),
                color@,
                n as int,
            ),
        decreases len - j,
    {
        proof {
            assert(m0.skip(j as int)[0] == m0[j as int]);
            assert(m0.skip(j as int).skip(1) =~= m0.skip(j + 1));
            assert(m0[j as int] == (m@[j as int].0@, m@[j as int].1 as int));
        }
        if bytes_eq(m[j].0.as_slice(), color.as_slice()) {
            if n > m[j].1 {
                let key = copy_range(color.as_slice(), 0, color.len());
                proof {
                    assert(key@ =~= color@);
                }
                m[j] = (key, n);
                proof {
                    assert(upd_max(m0.skip(j as int), color@, n as int) =~= seq![
                        (color@, n as int),
                    ] + m0.skip(j + 1));
                    assert(assoc_view(m@) =~= m0.take(j as int) + (seq![(color@, n as int)]
                        + m0.skip(j + 1)));
                }
            } else {
                proof {
                    assert(upd_max(m0.skip(j as int), color@, n as int) == m0.skip(j as int));
                    assert(m0.take(j as int) + m0.skip(j as int) =~= m0);
                }
            }
            return ;
        }
        proof {
            assert(upd_max(m0.skip(j as int), color@, n as int) == seq![m0[j as int]] + upd_max(
                m0.skip(j + 1),
                color@,
                n as int,
            ));
            assert(m0.take(j + 1) + upd_max(m0.skip(j + 1), color@, n as int) =~= m0.take(
                j as int,
            ) + (seq![m0[j as int]] + upd_max(m0.skip(j + 1), color@, n as int)));
        }
        j = j + 1;
    }
    proof {
        assert(m0.skip(len as int) =~= Seq::<(Seq<u8>, int)>::empty());
        assert(upd_max(m0.skip(len as int), color@, n as int) =~= seq![(color@, n as int)]);
    }
    m.push((color, n));
    proof {
        assert(assoc_view(m@) =~= m0 + seq![(color@, n as int)]);
        assert(m0.take(len as int) =~= m0);
    }
}

/// The largest count a colour reached in the game.
fn lookup_max(m: &Vec<(Vec<u8>, usize)>, color: &Vec<u8>) -> (r: usize)
    ensures
        r as int == get_max(assoc_view(m@), color@),
{
    let ghost mv = assoc_view(m@);
    let len = m.len();
    let mut j: usize = 0;
    proof {
        assert(mv.skip(0) =~= mv);
    }
    while j < len
        invariant
            j <= len,
            len == m@.len(),
            mv == assoc_view(m@),
            get_max(mv, color@) == get_max(mv.skip(j as int), color@),
        decreases len - j,
    {
        proof {
            assert(mv.skip(j as int)[0] == mv[j as int]);
            assert(mv.skip(j as int).skip(1) =~= mv.skip(j + 1));
            assert(mv[j as int] == (m@[j as int].0@, m@[j as int].1 as int));
        }
        if bytes_eq(m[j].0.as_slice(), color.as_slice()) {
            return m[j].1;
        }
        j = j + 1;
    }
    proof {
        assert(mv.skip(len as int) =~= Seq::<(Seq<u8>, int)>::empty());
    }
    0
}

/// The sum of the game numbers of the games the allowance permits.
///
/// Fails exactly when a handful cannot be read, or a possible game has no
/// readable header.
#[verifier::loop_isolation(false)]
pub fn run(input: &[u8], max_red: usize, max_green: usize, max_blue: usize) -> (r: Result<
    i64,
    Error,
>)
    requires
        ({
            let total = games_total(
                split_lines(input@),
                max_red as int,
                max_green as int,
                max_blue as int,
            );
            total is Some ==> total.unwrap() <= i64::MAX
        }),
    ensures
        match r {
            Ok(n) => games_total(
                split_lines(input@),
                max_red as int,
                max_green as int,
                max_blue as int,
            ) == Some(n as int),
            Err(e) => e == Error::BadInput && games_total(
                split_lines(input@),
                max_red as int,
                max_green as int,
                max_blue as int,
            ) is None,
        },
{
    let ghost ls = split_lines(input@);
    let lines = lines_of(input);
    let n = lines.len();
    let mut sum: i64 = 0;
    let mut i: usize = 0;
    proof {
        assert(ls.take(0) =~= Seq::<Seq<u8>>::empty());
    }
    while i < n
        invariant
            i <= n,
            games_total(ls.take(i as int), max_red as int, max_green as int, max_blue as int)
                == Some(sum as int),
            sum >= 0,
        decreases n - i,
    {
        proof {
            assert(deep(lines@)[i as int] == lines@[i as int]@);
            assert(ls.take(i + 1).drop_last() =~= ls.take(i as int));
            assert(ls.take(i + 1).last() == ls[i as int]);
        }
        let v = match score_line(lines[i].as_slice(), max_red, max_green, max_blue) {
            None => {
                proof {
                    lemma_games_total_prefix(
                        ls,
                        i as int,
                        max_red as int,
                        max_green as int,
                        max_blue as int,
                    );
                }
                return Err(Error::BadInput);
            },
            Some(v) => v,
        };
        proof {
            lemma_games_total_prefix(
                ls,
                i as int,
                max_red as int,
                max_green as int,
                max_blue as int,
            );
            lemma_line_score_nonneg(
                ls[i as int],
                max_red as int,
                max_green as int,
                max_blue as int,
            );
        }
        // a partial sum past the result range means a later line must fail
        let v64 = v as u64;
        if v64 > i64::MAX as u64 {
            proof {
                assert(games_total(
                    ls,
                    max_red as int,
                    max_green as int,
                    max_blue as int,
                ) is None);
            }
            return Err(Error::BadInput);
        }
        sum = match sum.checked_add(v64 as i64) {
            None => {
                proof {
                    assert(games_total(
                        ls,
                        max_red as int,
                        max_green as int,
                        max_blue as int,
                    ) is None);
                }
                return Err(Error::BadInput);
            },
            Some(s2) => s2,
        };
        i = i + 1;
    }
    proof {
        assert(ls.take(n as int) =~= ls);
    }
    Ok(sum)
}

/// The sum of the valid game numbers under the standard allowance of
/// twelve red, thirteen green and fourteen blue cubes.
pub fn process(input: &[u8]) -> (r: Result<i64, Error>)
    requires
        ({
            let total = games_total(split_lines(input@), 12, 13, 14);
            total is Some ==> total.unwrap() <= i64::MAX
        }),
    ensures
        match r {
            Ok(n) => games_total(split_lines(input@), 12, 13, 14) == Some(n as int),
            Err(e) => e == Error::BadInput && games_total(
                split_lines(input@),
                12,
                13,
                14,
            ) is None,
        },
{
    run(input, 12, 13, 14)
}

/// A finished prefix with one more bad line spoils the whole sum.
proof fn lemma_games_total_prefix(ls: Seq<Seq<u8>>, i: int, maxr: int, maxg: int, maxb: int)
    requires
        0 <= i < ls.len(),
    ensures
        games_total(ls, maxr, maxg, maxb) is Some ==> games_total(
            ls.take(i + 1),
            maxr,
            maxg,
            maxb,
        ) is Some && games_total(ls.take(i + 1), maxr, maxg, maxb).unwrap() <= games_total(
            ls,
            maxr,
            maxg,
            maxb,
        ).unwrap(),
        games_total(ls.take(i + 1), maxr, maxg, maxb) is None ==> games_total(
            ls,
            maxr,
            maxg,
            maxb,
        ) is None,
    decreases ls.len() - i,
{
    if i + 1 == ls.len() {
        assert(ls.take(i + 1) =~= ls);
    } else {
        lemma_games_total_prefix(ls, i + 1, maxr, maxg, maxb);
        assert(ls.take(i + 2).drop_last() =~= ls.take(i + 1));
        assert(ls.take(i + 2).last() == ls[i + 1]);
        lemma_line_score_nonneg(ls[i + 1], maxr, maxg, maxb);
    }
}

/// A line never subtracts from the sum.
proof fn lemma_line_score_nonneg(l: Seq<u8>, maxr: int, maxg: int, maxb: int)
    ensures
        match line_score(l, maxr, maxg, maxb) {
            Some(v) => v >= 0,
            None => true,
        },
{
    let b0 = piece_end(l, 0);
    match line_score(l, maxr, maxg, maxb) {
        Some(v) => {
            if v != 0 {
                match game_number(l, b0) {
                    Some(g) => {
                        lemma_spaces_end(l, 0);
                        let p = spaces_end(l, 0);
                        lemma_spaces_end(l, p + 4);
                        let q = spaces_end(l, p + 4);
                        lemma_digits_end(l, q);
                        crate::text::lemma_num_value_nonneg(l, q, digits_end(l, q));
                    },
                    None => {},
                }
            }
        },
        None => {},
    }
}

/// Gathers the per-colour maxima of one line's draws.
#[verifier::loop_isolation(false)]
pub fn scan_line_maxima(l: &[u8]) -> (r: Option<Vec<(Vec<u8>, usize)>>)
    ensures
        match r {
            Some(m) => line_maxima(l@) == Some(assoc_view(m@)),
            None => line_maxima(l@) is None,
        },
{
    let b0 = find_piece_end(l, 0);
    let mut maxima: Vec<(Vec<u8>, usize)> = Vec::new();
    proof {
        assert(assoc_view(maxima@) =~= Seq::<(Seq<u8>, int)>::empty());
    }
    if b0 < l.len() {
        let mut a = b0 + 1;
        loop
            invariant
                b0 < l@.len(),
                b0 + 1 <= a <= l@.len(),
                draws_from(l@, b0 + 1, Seq::empty()) == (match draws_from(
                    l@,
                    a as int,
                    assoc_view(maxima@),
                ) {
                    Some(m) => Some(m),
                    None => None::<Seq<(Seq<u8>, int)>>,
                }),
            decreases l@.len() - a,
        {
            let b = find_piece_end(l, a);
            let (cnt, color) = match scan_draw(l, a, b) {
                None => {
                    return None;
                },
                Some(x) => x,
            };
            apply_draw(&mut maxima, color, cnt);
            if b == l.len() {
                break ;
            }
            a = b + 1;
        }
    }
    Some(maxima)
}

/// What one line adds to the sum.
#[verifier::loop_isolation(false)]
fn score_line(l: &[u8], max_red: usize, max_green: usize, max_blue: usize) -> (r: Option<usize>)
    ensures
        match r {
            Some(v) => line_score(l@, max_red as int, max_green as int, max_blue as int) == Some(
                v as int,
            ),
            None => line_score(l@, max_red as int, max_green as int, max_blue as int) is None,
        },
{
    let b0 = find_piece_end(l, 0);
    let maxima = match scan_line_maxima(l) {
        None => {
            return None;
        },
        Some(m) => m,
    };
    let rn = red_bytes();
    let gn = green_bytes();
    let bn = blue_bytes();
    let mr = lookup_max(&maxima, &rn);
    let mg = lookup_max(&maxima, &gn);
    let mb = lookup_max(&maxima, &bn);
    if mr <= max_red && mg <= max_green && mb <= max_blue {
        // only a possible game needs its header read
        let p = skip_spaces(l, 0);
        let tag = game_tag_bytes();
        if !match_prefix(l, p, tag.as_slice()) {
            return None;
        }
        let ln = l.len();
        proof {
            assert(p + 4 <= ln);
        }
        let q = skip_spaces(l, p + 4);
        if q == p + 4 {
            return None;
        }
        proof {
            lemma_digits_end(l@, q as int);
        }
        let (e, gnum) = match scan_u64(l, q) {
            None => {
                proof {
                    if num_value(l@, q as int, digits_end(l@, q as int)) > u64::MAX {
                        crate::text::lemma_num_value_nonneg(
                            l@,
                            q as int,
                            digits_end(l@, q as int),
                        );
                    }
                }
                return None;
            },
            Some(x) => x,
        };
        if gnum > usize::MAX as u64 {
            return None;
        }
        if e > b0 {
            return None;
        }
        let t = skip_spaces(l, e);
        if t != b0 {
            return None;
        }
        Some(gnum as usize)
    } else {
        Some(0)
    }
}

} // verus!
