//! Scratchcards, second round: each card wins copies of the following
//! cards, one per match, and the answer is how many cards pile up.

use vstd::prelude::*;
use crate::Error;
use crate::day04_part1::{calculate_game_nr_matches, card_matches, lemma_card_matches_bound,
    matches_model};
use crate::text::{lines_of, split_lines, deep};

verus! {

/// The mathematical values of the card counts.
pub open spec fn ints32(s: Seq<i32>) -> Seq<int> {
    Seq::new(s.len(), |i: int| s[i] as int)
}

/// The copy counts after the first `k` cards have been played: playing
/// card `i` adds its own count to each of the next `matches(i)` cards.
pub open spec fn copies_after(ms: Seq<int>, k: int) -> Seq<int>
    decreases k
        when 0 <= k <= ms.len()
{
    if k <= 0 {
        Seq::new(ms.len(), |j: int| 1int)
    } else {
        let prev = copies_after(ms, k - 1);
        Seq::new(
            ms.len(),
            |j: int|
                prev[j] + if k <= j <= k - 1 + ms[k - 1] {
                    prev[k - 1]
                } else {
                    0
                },
        )
    }
}

/// The sum of a row of counts.
pub open spec fn seq_sum(s: Seq<int>) -> int
    decreases s.len(),
{
    if s.len() == 0 {
        0
    } else {
        seq_sum(s.drop_last()) + s.last()
    }
}

/// Whether the copy counts and their partial sums stay inside `i32`.
pub open spec fn copies_fit(ms: Seq<int>) -> bool {
    &&& forall|k: int, j: int|
        0 <= k <= ms.len() && 0 <= j < ms.len() ==> 0 <= #[trigger] copies_after(ms, k)[j]
            && copies_after(ms, k)[j] + copies_after(ms, k)[if k < ms.len() {
            k
        } else {
            0
        }] <= i32::MAX
    &&& forall|t: int|
        0 <= t <= ms.len() ==> i32::MIN <= #[trigger] seq_sum(
            copies_after(ms, ms.len() as int).take(t),
        ) <= i32::MAX
}

/// The total number of cards once every card has been played.
#[verifier::loop_isolation(false)]
pub fn calculate_total_num_cards(matches: Vec<i32>) -> (r: i32)
    requires
        forall|i: int| 0 <= i < matches@.len() ==> 0 <= #[trigger] matches@[i],
        copies_fit(ints32(matches@)),
    ensures
        r as int == seq_sum(copies_after(ints32(matches@), matches@.len() as int)),
{
    let ghost ms = ints32(matches@);
    let nr_games = matches.len();
    let mut copies_won: Vec<i32> = Vec::new();
    let mut f: usize = 0;
    while f < nr_games
        invariant
            f <= nr_games,
            copies_won@.len() == f,
            forall|j: int| 0 <= j < f ==> #[trigger] copies_won@[j] == 1i32,
        decreases nr_games - f,
    {
        copies_won.push(1);
        f = f + 1;
    }
    proof {
        assert(ints32(copies_won@) =~= copies_after(ms, 0));
    }
    let mut i: usize = 0;
    while i < nr_games
        invariant
            i <= nr_games,
            copies_won@.len() == nr_games,
            ints32(copies_won@) == copies_after(ms, i as int),
        decreases nr_games - i,
    {
        let matches_this_game = matches[i];
        let copies_this_game = copies_won[i];
        proof {
            assert(ms[i as int] == matches@[i as int] as int);
            assert(copies_after(ms, i as int)[i as int] == copies_won@[i as int] as int);
        }
        let ghost prev = copies_after(ms, i as int);
        let mu = matches_this_game as usize;
        let mut j: usize = i + 1;
        while j < nr_games && j - (i + 1) < mu
            invariant
                i + 1 <= j,
                j <= i + 1 + mu,
                copies_won@.len() == nr_games,
                forall|q: int|
                    0 <= q < nr_games && !(i + 1 <= q < j) ==> #[trigger] copies_won@[q] as int
                        == prev[q],
                forall|q: int|
                    i + 1 <= q < j ==> #[trigger] copies_won@[q] as int == prev[q] + prev[i as int],
            decreases nr_games - j,
        {
            proof {
                assert(copies_after(ms, i + 1)[j as int] == prev[j as int] + prev[i as int]);
                assert(0 <= copies_after(ms, i + 1)[j as int]);
                let ghost pj = copies_after(ms, i as int)[j as int];
                let ghost pi = copies_after(ms, i as int)[i as int];
                assert(pj + pi <= i32::MAX);
            }
            let v = copies_won[j] + copies_this_game;
            copies_won[j] = v;
            j = j + 1;
        }
        proof {
            assert forall|q: int| 0 <= q < nr_games implies #[trigger] ints32(copies_won@)[q]
                == copies_after(ms, i + 1)[q] by {
                if i + 1 <= q < j {
                    assert(q <= i + ms[i as int]);
                } else if i + 1 <= q <= i + ms[i as int] {
                    assert(j == i + 1 + mu || j == nr_games);
                }
            }
            assert(ints32(copies_won@) =~= copies_after(ms, i + 1));
        }
        i = i + 1;
    }
    let ghost finals = copies_after(ms, nr_games as int);
    let mut total: i32 = 0;
    let mut t: usize = 0;
    proof {
        assert(finals.take(0) =~= Seq::<int>::empty());
    }
    while t < nr_games
        invariant
            t <= nr_games,
            total as int == seq_sum(finals.take(t as int)),
        decreases nr_games - t,
    {
        proof {
            assert(finals.take(t + 1).drop_last() =~= finals.take(t as int));
            assert(finals.take(t + 1).last() == finals[t as int]);
            assert(i32::MIN <= seq_sum(finals.take(t + 1)) <= i32::MAX);
            assert(finals[t as int] == copies_won@[t as int] as int);
        }
        total = total + copies_won[t];
        t = t + 1;
    }
    proof {
        assert(finals.take(nr_games as int) =~= finals);
    }
    total
}

/// Whether the whole input stays inside the machine range.
pub open spec fn day04b_fits(ls: Seq<Seq<u8>>) -> bool {
    &&& forall|i: int| 0 <= i < ls.len() ==> (#[trigger] ls[i]).len() <= i32::MAX
    &&& copies_fit(matches_model(ls))
}

/// The total number of scratchcards the input's cards win.
#[verifier::loop_isolation(false)]
pub fn process(input: &[u8]) -> (r: Result<i64, Error>)
    requires
        day04b_fits(split_lines(input@)),
    ensures
        match r {
            Ok(n) => n as int == seq_sum(
                copies_after(
                    matches_model(split_lines(input@)),
                    split_lines(input@).len() as int,
                ),
            ),
            Err(e) => false,
        },
{
    let ghost ls = split_lines(input@);
    let ghost ms = matches_model(ls);
    let lines = lines_of(input);
    let n = lines.len();
    let mut matches: Vec<i32> = Vec::new();
    let mut i: usize = 0;
    while i < n
        invariant
            i <= n,
            matches@.len() == i,
            forall|j: int| 0 <= j < i ==> #[trigger] matches@[j] as int == ms[j],
            forall|j: int| 0 <= j < i ==> 0 <= #[trigger] matches@[j],
        decreases n - i,
    {
        proof {
            assert(deep(lines@)[i as int] == lines@[i as int]@);
            assert(ms[i as int] == card_matches(lines@[i as int]@, 0, Seq::empty(), false));
            lemma_card_matches_bound(lines@[i as int]@, 0, Seq::empty(), false);
        }
        let m = calculate_game_nr_matches(lines[i].as_slice());
        matches.push(m);
        i = i + 1;
    }
    proof {
        assert(ints32(matches@) =~= ms);
    }
    let total = calculate_total_num_cards(matches);
    Ok(total as i64)
}

} // verus!
