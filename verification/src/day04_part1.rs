//! Scratchcards: count how many of a card's own numbers appear among its
//! winning numbers, and score each card by doubling per match.

use vstd::prelude::*;
use crate::Error;
use crate::text::{
    digits_end, int_value, lines_of, sign_end, spaces_end, split_lines, token_end,
    skip_spaces, find_token_end, scan_i64, lemma_spaces_end, lemma_token_end, deep};

verus! {

/// Whether the token `l[p..e)` is a decimal number fitting `i32`.
pub open spec fn token_is_num(l: Seq<u8>, p: int, e: int) -> bool {
    let d = sign_end(l, p);
    &&& digits_end(l, d) == e
    &&& e > d
    &&& i32::MIN <= int_value(l, p) <= i32::MAX
}

/// The number of matches on the card line from `from` on: numbers before
/// the bar are winning numbers, numbers after it count when they appear
/// among the winning ones, and any other token is passed over.
pub open spec fn card_matches(l: Seq<u8>, from: int, winning: Seq<int>, seen_bar: bool) -> int
    decreases l.len() - from via card_matches_decreases
{
    if 0 <= from <= l.len() {
        let p = spaces_end(l, from);
        if p >= l.len() {
            0
        } else {
            let e = token_end(l, p);
            if token_is_num(l, p, e) {
                let v = int_value(l, p);
                if seen_bar {
                    (if winning.contains(v) {
                        1int
                    } else {
                        0int
                    }) + card_matches(l, e, winning, true)
                } else {
                    card_matches(l, e, winning.push(v), false)
                }
            } else if e == p + 1 && l[p] == ('|' as u8) {
                card_matches(l, e, winning, true)
            } else {
                card_matches(l, e, winning, seen_bar)
            }
        }
    } else {
        0
    }
}

#[via_fn]
proof fn card_matches_decreases(l: Seq<u8>, from: int, winning: Seq<int>, seen_bar: bool) {
    if 0 <= from <= l.len() {
        lemma_spaces_end(l, from);
        let p = spaces_end(l, from);
        if p < l.len() {
            lemma_token_end(l, p);
        }
    }
}

/// A card cannot match more often than its line has bytes.
pub proof fn lemma_card_matches_bound(l: Seq<u8>, from: int, winning: Seq<int>, seen_bar: bool)
    requires
        0 <= from <= l.len(),
    ensures
        0 <= card_matches(l, from, winning, seen_bar) <= l.len() - from,
    decreases l.len() - from,
{
    lemma_spaces_end(l, from);
    let p = spaces_end(l, from);
    if p < l.len() {
        lemma_token_end(l, p);
        let e = token_end(l, p);
        if token_is_num(l, p, e) {
            if seen_bar {
                lemma_card_matches_bound(l, e, winning, true);
            } else {
                lemma_card_matches_bound(l, e, winning.push(int_value(l, p)), false);
            }
        } else if e == p + 1 && l[p] == ('|' as u8) {
            lemma_card_matches_bound(l, e, winning, true);
        } else {
            lemma_card_matches_bound(l, e, winning, seen_bar);
        }
    }
}

/// Whether a sequence holds the value.
fn seq_contains(v: &Vec<i32>, x: i32) -> (r: bool)
    ensures
        r == v@.map_values(|y: i32| y as int).contains(x as int),
{
    let ghost vv = v@.map_values(|y: i32| y as int);
    let n = v.len();
    let mut i: usize = 0;
    while i < n
        invariant
            n == v@.len(),
            vv == v@.map_values(|y: i32| y as int),
            i <= n,
            forall|j: int| 0 <= j < i ==> vv[j] != x as int,
        decreases n - i,
    {
        if v[i] == x {
            proof {
                assert(vv[i as int] == x as int);
            }
            return true;
        }
        i = i + 1;
    }
    proof {
        if vv.contains(x as int) {
            let j = choose|j: int| 0 <= j < vv.len() && vv[j] == x as int;
            assert(false);
        }
    }
    false
}

/// Counts the matches of one card line.
#[verifier::loop_isolation(false)]
pub fn calculate_game_nr_matches(line: &[u8]) -> (r: i32)
    requires
        line@.len() <= i32::MAX,
    ensures
        r as int == card_matches(line@, 0, Seq::empty(), false),
{
    let l = line;
    let mut winning: Vec<i32> = Vec::new();
    let mut count: i32 = 0;
    let mut seen_bar = false;
    let mut pos: usize = 0;
    proof {
        lemma_card_matches_bound(l@, 0, Seq::empty(), false);
        assert(winning@.map_values(|y: i32| y as int) =~= Seq::<int>::empty());
    }
    while pos < l.len()
        invariant
            pos <= l@.len(),
            0 <= count,
            count + card_matches(l@, pos as int, winning@.map_values(|y: i32| y as int), seen_bar)
                == card_matches(l@, 0, Seq::empty(), false),
            card_matches(l@, pos as int, winning@.map_values(|y: i32| y as int), seen_bar) >= 0,
        decreases l@.len() - pos,
    {
        let ghost wv = winning@.map_values(|y: i32| y as int);
        let p = skip_spaces(l, pos);
        if p == l.len() {
            return count;
        }
        let e = find_token_end(l, p);
        proof {
            lemma_spaces_end(l@, pos as int);
            lemma_token_end(l@, p as int);
            assert(e > p);
            lemma_card_matches_bound(l@, e as int, wv, seen_bar);
            lemma_card_matches_bound(l@, e as int, wv, true);
            lemma_card_matches_bound(l@, e as int, wv.push(int_value(l@, p as int)), false);
        }
        match scan_i64(l, p) {
            Some((de, v)) if de == e && i32::MIN as i64 <= v && v <= i32::MAX as i64 => {
                let v32 = v as i32;
                if seen_bar {
                    if seq_contains(&winning, v32) {
                        count = count + 1;
                    }
                } else {
                    let ghost w0 = winning@;
                    winning.push(v32);
                    proof {
                        assert(winning@.map_values(|y: i32| y as int) =~= wv.push(v as int));
                    }
                }
            },
            _ => {
                proof {
                    // the token is not a number fitting the range
                    assert(!token_is_num(l@, p as int, e as int));
                }
                if e == p + 1 && l[p] == ('|' as u8) {
                    seen_bar = true;
                }
            },
        }
        pos = e;
    }
    count
}

/// Two raised to the given power.
pub open spec fn pow2(n: nat) -> int
    decreases n,
{
    if n == 0 {
        1
    } else {
        2 * pow2((n - 1) as nat)
    }
}

/// The score of a card: nothing for no matches, else a doubling for each
/// match past the first.
pub open spec fn score_of(matches: int) -> int {
    if matches <= 0 {
        0
    } else {
        pow2((matches - 1) as nat)
    }
}

proof fn lemma_pow2_pos(a: nat, b: nat)
    requires
        a <= b,
    ensures
        0 < pow2(a) <= pow2(b),
    decreases b,
{
    if a < b {
        lemma_pow2_pos(a, (b - 1) as nat);
    } else if b > 0 {
        lemma_pow2_pos((a - 1) as nat, (b - 1) as nat);
    }
}

#[verifier::spinoff_prover]
#[verifier::rlimit(100)]
proof fn lemma_pow2_bound(n: nat)
    requires
        n <= 30,
    ensures
        0 < pow2(n) <= 0x40000000,
{
    lemma_pow2_pos(n, 30);
    assert(pow2(30) == 0x40000000) by {
        reveal_with_fuel(pow2, 32);
    }
}

/// The score a number of matches earns.  More than thirty-one matches
/// would double the score out of its range.
pub fn get_score_from_number_of_matches(matched_numbers: u32) -> (r: i32)
    requires
        matched_numbers <= 31,
    ensures
        r as int == score_of(matched_numbers as int),
{
    if matched_numbers == 0 {
        return 0;
    }
    let mut r: i32 = 1;
    let mut k: u32 = 0;
    while k < matched_numbers - 1
        invariant
            matched_numbers >= 1,
            k <= matched_numbers - 1 <= 30,
            r as int == pow2(k as nat),
            1 <= r,
        decreases matched_numbers - 1 - k,
    {
        proof {
            lemma_pow2_bound((k + 1) as nat);
        }
        r = r * 2;
        k = k + 1;
    }
    r
}

/// The matches of every line; meaningful only when each line is short
/// enough to count within `i32`.
pub open spec fn matches_model(ls: Seq<Seq<u8>>) -> Seq<int> {
    ls.map_values(|l: Seq<u8>| card_matches(l, 0, Seq::empty(), false))
}

/// The sum of the scores of all lines, taken left to right.
pub open spec fn scores_total(ms: Seq<int>) -> int
    decreases ms.len(),
{
    if ms.len() == 0 {
        0
    } else {
        scores_total(ms.drop_last()) + score_of(ms.last())
    }
}

/// Whether the input stays inside the machine range: lines countable in
/// `i32`, at most thirty-one matches each, and all partial sums in range.
pub open spec fn day04_fits(ls: Seq<Seq<u8>>) -> bool {
    &&& forall|i: int| 0 <= i < ls.len() ==> (#[trigger] ls[i]).len() <= i32::MAX
    &&& forall|i: int| 0 <= i < ls.len() ==> #[trigger] matches_model(ls)[i] <= 31
    &&& forall|k: int|
        0 <= k <= ls.len() ==> i32::MIN <= #[trigger] scores_total(matches_model(ls).take(k))
            <= i32::MAX
}

/// The total score of all cards of the input.
#[verifier::loop_isolation(false)]
pub fn process(input: &[u8]) -> (r: Result<i64, Error>)
    requires
        day04_fits(split_lines(input@)),
    ensures
        match r {
            Ok(n) => n as int == scores_total(matches_model(split_lines(input@))),
            Err(e) => false,
        },
{
    let ghost ls = split_lines(input@);
    let ghost ms = matches_model(ls);
    let lines = lines_of(input);
    let n = lines.len();
    let mut score: i32 = 0;
    let mut i: usize = 0;
    proof {
        assert(ms.take(0) =~= Seq::<int>::empty());
    }
    while i < n
        invariant
            i <= n,
            score as int == scores_total(ms.take(i as int)),
        decreases n - i,
    {
        proof {
            assert(deep(lines@)[i as int] == lines@[i as int]@);
            assert(ms[i as int] == card_matches(lines@[i as int]@, 0, Seq::empty(), false));
            lemma_card_matches_bound(lines@[i as int]@, 0, Seq::empty(), false);
            assert(ms.take(i + 1).drop_last() =~= ms.take(i as int));
            assert(ms.take(i + 1).last() == ms[i as int]);
            assert(i32::MIN <= scores_total(ms.take(i + 1)) <= i32::MAX);
        }
        let game_matches = calculate_game_nr_matches(lines[i].as_slice());
        let game_score = get_score_from_number_of_matches(game_matches as u32);
        score = score + game_score;
        i = i + 1;
    }
    proof {
        assert(ms.take(n as int) =~= ms);
    }
    Ok(score as i64)
}

/// The score of one card line: its matches doubled up.
pub fn calculate_game_score(line: &[u8]) -> (r: i32)
    requires
        line@.len() <= i32::MAX,
        card_matches(line@, 0, Seq::empty(), false) <= 31,
    ensures
        r as int == score_of(card_matches(line@, 0, Seq::empty(), false)),
{
    proof {
        lemma_card_matches_bound(line@, 0, Seq::empty(), false);
    }
    let matches = calculate_game_nr_matches(line);
    get_score_from_number_of_matches(matches as u32)
}

} // verus!
