//! Cube games, second question: for each game, the product of the largest
//! count each colour reached, summed over all lines.

use vstd::prelude::*;
use crate::Error;
use crate::day02_part1::{assoc_view, draws_from, lemma_piece_end, line_maxima, piece_end,
    scan_line_maxima, upd_max};
use crate::text::{lines_of, split_lines, deep};

verus! {

/// The product of the per-colour maxima of one game.
pub open spec fn maxima_product(m: Seq<(Seq<u8>, int)>) -> int
    decreases m.len(),
{
    if m.len() == 0 {
        1
    } else {
        maxima_product(m.drop_last()) * m.last().1
    }
}

/// The power one line contributes: the product of its colour maxima;
/// `None` when a handful is unreadable.
pub open spec fn line_power(l: Seq<u8>) -> Option<int> {
    match line_maxima(l) {
        None => None,
        Some(m) => Some(maxima_product(m)),
    }
}

/// Whether every partial product of every line's maxima stays inside the
/// result range.
pub open spec fn products_fit(ls: Seq<Seq<u8>>) -> bool {
    forall|i: int|
        0 <= i < ls.len() ==> match line_maxima(#[trigger] ls[i]) {
            Some(m) => forall|k: int|
                0 <= k <= m.len() ==> #[trigger] maxima_product(m.take(k)) <= i64::MAX,
            None => true,
        }
}

/// The sum of the powers of all lines.
pub open spec fn powers_total(ls: Seq<Seq<u8>>) -> Option<int>
    decreases ls.len(),
{
    if ls.len() == 0 {
        Some(0)
    } else {
        match (powers_total(ls.drop_last()), line_power(ls.last())) {
            (Some(acc), Some(v)) => Some(acc + v),
            _ => None,
        }
    }
}

/// A maxima list of nonnegative counts has a nonnegative product.
proof fn lemma_product_nonneg(m: Seq<(Seq<u8>, int)>)
    requires
        forall|k: int| 0 <= k < m.len() ==> (#[trigger] m[k]).1 >= 0,
    ensures
        maxima_product(m) >= 0,
    decreases m.len(),
{
    if m.len() > 0 {
        assert(forall|k: int|
            0 <= k < m.drop_last().len() ==> #[trigger] m.drop_last()[k] == m[k]);
        lemma_product_nonneg(m.drop_last());
        assert(maxima_product(m.drop_last()) * m.last().1 >= 0) by (nonlinear_arith)
            requires
                maxima_product(m.drop_last()) >= 0,
                m.last().1 >= 0,
        ;
    }
}

/// Every maximum a game records is nonnegative.
pub proof fn lemma_draws_nonneg(l: Seq<u8>, from: int, m: Seq<(Seq<u8>, int)>)
    requires
        forall|k: int| 0 <= k < m.len() ==> (#[trigger] m[k]).1 >= 0,
    ensures
        match draws_from(l, from, m) {
            Some(m2) => forall|k: int| 0 <= k < m2.len() ==> (#[trigger] m2[k]).1 >= 0,
            None => true,
        },
    decreases l.len() - from,
{
    if 0 <= from <= l.len() {
        lemma_piece_end(l, from);
        let b = piece_end(l, from);
        match crate::day02_part1::draw_at(l, from, b) {
            None => {},
            Some((n, color)) => {
                crate::text::lemma_spaces_end(l, from);
                crate::text::lemma_digits_end(l, crate::text::spaces_end(l, from));
                crate::text::lemma_num_value_nonneg(
                    l,
                    crate::text::spaces_end(l, from),
                    crate::text::digits_end(l, crate::text::spaces_end(l, from)),
                );
                lemma_upd_nonneg(m, color, n);
                if b < l.len() {
                    lemma_draws_nonneg(l, b + 1, upd_max(m, color, n));
                }
            },
        }
    }
}

proof fn lemma_upd_nonneg(m: Seq<(Seq<u8>, int)>, color: Seq<u8>, n: int)
    requires
        forall|k: int| 0 <= k < m.len() ==> (#[trigger] m[k]).1 >= 0,
        n >= 0,
    ensures
        forall|k: int|
            0 <= k < upd_max(m, color, n).len() ==> (#[trigger] upd_max(m, color, n)[k]).1 >= 0,
    decreases m.len(),
{
    if m.len() > 0 && m[0].0 != color {
        assert(forall|k: int| 0 <= k < m.skip(1).len() ==> #[trigger] m.skip(1)[k] == m[k + 1]);
        lemma_upd_nonneg(m.skip(1), color, n);
        assert(forall|k: int|
            1 <= k < upd_max(m, color, n).len() ==> #[trigger] upd_max(m, color, n)[k] == upd_max(
                m.skip(1),
                color,
                n,
            )[k - 1]);
    }
}

/// A finished prefix with one more bad line spoils the whole sum.
proof fn lemma_powers_total_prefix(ls: Seq<Seq<u8>>, i: int)
    requires
        0 <= i < ls.len(),
    ensures
        powers_total(ls) is Some ==> powers_total(ls.take(i + 1)) is Some && powers_total(
            ls.take(i + 1),
        ).unwrap() <= powers_total(ls).unwrap(),
        powers_total(ls.take(i + 1)) is None ==> powers_total(ls) is None,
    decreases ls.len() - i,
{
    if i + 1 == ls.len() {
        assert(ls.take(i + 1) =~= ls);
    } else {
        lemma_powers_total_prefix(ls, i + 1);
        assert(ls.take(i + 2).drop_last() =~= ls.take(i + 1));
        assert(ls.take(i + 2).last() == ls[i + 1]);
        lemma_line_power_nonneg(ls[i + 1]);
    }
}

/// A line never subtracts from the sum.
proof fn lemma_line_power_nonneg(l: Seq<u8>)
    ensures
        match line_power(l) {
            Some(v) => v >= 0,
            None => true,
        },
{
    let b0 = piece_end(l, 0);
    if b0 >= l.len() {
        assert(maxima_product(Seq::<(Seq<u8>, int)>::empty()) == 1);
    } else {
        lemma_draws_nonneg(l, b0 + 1, Seq::empty());
        match draws_from(l, b0 + 1, Seq::empty()) {
            Some(m) => {
                lemma_product_nonneg(m);
            },
            None => {},
        }
    }
}

/// The sum over all lines of the product of each game's colour maxima.
///
/// Fails exactly when a handful cannot be read, or the sum leaves the
/// result range.
#[verifier::loop_isolation(false)]
pub fn run(input: &[u8]) -> (r: Result<i64, Error>)
    requires
        products_fit(split_lines(input@)),
        ({
            let total = powers_total(split_lines(input@));
            total is Some ==> total.unwrap() <= i64::MAX
        }),
    ensures
        match r {
            Ok(n) => powers_total(split_lines(input@)) == Some(n as int),
            Err(e) => e == Error::BadInput && powers_total(split_lines(input@)) is None,
        },
{
    let ghost ls = split_lines(input@);
    let lines = lines_of(input);
    let n = lines.len();
    let mut sum: i64 = 0;
    let mut i: usize = 0;
    proof {
        assert(ls.take(0) =~= Seq::<Seq<u8>>::empty());
    }
    while i < n
        invariant
            i <= n,
            powers_total(ls.take(i as int)) == Some(sum as int),
            sum >= 0,
        decreases n - i,
    {
        proof {
            assert(deep(lines@)[i as int] == lines@[i as int]@);
            assert(ls.take(i + 1).drop_last() =~= ls.take(i as int));
            assert(ls.take(i + 1).last() == ls[i as int]);
        }
        let maxima = match scan_line_maxima(lines[i].as_slice()) {
            None => {
                proof {
                    lemma_powers_total_prefix(ls, i as int);
                }
                return Err(Error::BadInput);
            },
            Some(m) => m,
        };
        proof {
            let b0 = piece_end(ls[i as int], 0);
            if b0 >= ls[i as int].len() {
            } else {
                lemma_draws_nonneg(ls[i as int], b0 + 1, Seq::<(Seq<u8>, int)>::empty());
            }
            lemma_powers_total_prefix(ls, i as int);
            lemma_line_power_nonneg(ls[i as int]);
        }
        // the product of this game's maxima, within range by the caller's word
        let ghost mv = assoc_view(maxima@);
        let mut product: u64 = 1;
        let mut k: usize = 0;
        proof {
            assert(mv.take(0) =~= Seq::<(Seq<u8>, int)>::empty());
        }
        while k < maxima.len()
            invariant
                k <= maxima@.len(),
                mv == crate::day02_part1::assoc_view(maxima@),
                product as int == maxima_product(mv.take(k as int)),
                forall|t: int| 0 <= t < mv.len() ==> (#[trigger] mv[t]).1 >= 0,
                product >= 0,
            decreases maxima@.len() - k,
        {
            proof {
                assert(mv.take(k + 1).drop_last() =~= mv.take(k as int));
                assert(mv.take(k + 1).last() == mv[k as int]);
                assert(mv[k as int] == (maxima@[k as int].0@, maxima@[k as int].1 as int));
            }
            proof {
                assert(maxima_product(mv.take(k + 1)) <= i64::MAX);
                lemma_partial_product(mv, k + 1);
            }
            let count = maxima[k].1 as u64;
            product = match product.checked_mul(count) {
                None => {
                    proof {
                        assert(false);
                    }
                    return Err(Error::BadInput);
                },
                Some(p) => p,
            };
            k = k + 1;
        }
        proof {
            assert(mv.take(maxima@.len() as int) =~= mv);
        }
        sum = match sum.checked_add(product as i64) {
            None => {
                proof {
                    assert(powers_total(ls) is None);
                }
                return Err(Error::BadInput);
            },
            Some(s2) => s2,
        };
        proof {
            if powers_total(ls) is Some {
                assert(sum as int <= powers_total(ls).unwrap());
            }
        }
        i = i + 1;
    }
    proof {
        assert(ls.take(n as int) =~= ls);
    }
    Ok(sum)
}

/// The sum of the powers of all games.
pub fn process(input: &[u8]) -> (r: Result<i64, Error>)
    requires
        products_fit(split_lines(input@)),
        ({
            let total = powers_total(split_lines(input@));
            total is Some ==> total.unwrap() <= i64::MAX
        }),
    ensures
        match r {
            Ok(n) => powers_total(split_lines(input@)) == Some(n as int),
            Err(e) => e == Error::BadInput && powers_total(split_lines(input@)) is None,
        },
{
    run(input)
}

/// A prefix of the maxima never outweighs the whole product.
proof fn lemma_partial_product(m: Seq<(Seq<u8>, int)>, k: int)
    requires
        0 < k <= m.len(),
        forall|t: int| 0 <= t < m.len() ==> (#[trigger] m[t]).1 >= 0,
    ensures
        maxima_product(m.take(k)) >= 0,
        maxima_product(m.take(k)) <= maxima_product(m) || maxima_product(m) == 0,
    decreases m.len() - k,
{
    assert(forall|t: int| 0 <= t < k ==> #[trigger] m.take(k)[t] == m[t]);
    lemma_product_nonneg(m.take(k));
    if k == m.len() {
        assert(m.take(k) =~= m);
    } else {
        lemma_partial_product(m, k + 1);
        assert(m.take(k + 1).drop_last() =~= m.take(k));
        assert(m.take(k + 1).last() == m[k]);
        lemma_product_nonneg(m.take(k + 1));
        if m[k].1 == 0 {
            lemma_product_zero(m, k);
        } else {
            assert(maxima_product(m.take(k)) * m[k].1 >= maxima_product(m.take(k)) * 1)
                by (nonlinear_arith)
                requires
                    maxima_product(m.take(k)) >= 0,
                    m[k].1 >= 1,
            ;
        }
    }
}

/// A zero anywhere makes the whole product zero.
proof fn lemma_product_zero(m: Seq<(Seq<u8>, int)>, k: int)
    requires
        0 <= k < m.len(),
        m[k].1 == 0,
    ensures
        maxima_product(m) == 0,
    decreases m.len(),
{
    if m.len() > 0 {
        if k == m.len() - 1 {
            assert(maxima_product(m.drop_last()) * 0 == 0) by (nonlinear_arith);
        } else {
            assert(m.drop_last()[k] == m[k]);
            lemma_product_zero(m.drop_last(), k);
            assert(0 * m.last().1 == 0) by (nonlinear_arith);
        }
    }
}

} // verus!
