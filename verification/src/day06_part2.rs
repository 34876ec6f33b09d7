//! The race lines read as one long race: the numbers of each line are
//! glued together digit for digit, and that single race is counted.

use vstd::prelude::*;
use crate::Error;
use crate::day06_part1::{parse_input, races_model, ways_value, Race};

verus! {

/// Ten to the given power.
pub open spec fn pow10(n: nat) -> int
    decreases n,
{
    if n == 0 {
        1
    } else {
        10 * pow10((n - 1) as nat)
    }
}

/// How many decimal digits a nonnegative number prints as.
pub open spec fn dec_digits(v: int) -> nat
    decreases v
        when v >= 0
{
    if v < 10 {
        1
    } else {
        (1 + dec_digits(v / 10)) as nat
    }
}

/// The number the decimal digits of the values spell, glued in order;
/// `None` for an empty list or a negative value, whose text would not
/// read back as a plain number.
pub open spec fn concat_raw(vs: Seq<int>) -> Option<int>
    decreases vs.len(),
{
    if vs.len() == 0 {
        None
    } else if vs.len() == 1 {
        if vs[0] >= 0 {
            Some(vs[0])
        } else {
            None
        }
    } else {
        match concat_raw(vs.drop_last()) {
            None => None,
            Some(acc) => if vs.last() >= 0 {
                Some(acc * pow10(dec_digits(vs.last())) + vs.last())
            } else {
                None
            },
        }
    }
}

proof fn lemma_pow10_pos(n: nat)
    ensures
        pow10(n) >= 1,
    decreases n,
{
    if n > 0 {
        lemma_pow10_pos((n - 1) as nat);
    }
}

/// Glueing more digits on never shrinks a nonnegative number.
proof fn lemma_concat_grows(acc: int, v: int)
    requires
        acc >= 0,
        v >= 0,
    ensures
        acc * pow10(dec_digits(v)) + v >= acc,
        acc * pow10(dec_digits(v)) + v >= v,
{
    lemma_pow10_pos(dec_digits(v));
    assert(acc * pow10(dec_digits(v)) >= acc) by (nonlinear_arith)
        requires
            acc >= 0,
            pow10(dec_digits(v)) >= 1,
    ;
    assert(acc * pow10(dec_digits(v)) >= 0) by (nonlinear_arith)
        requires
            acc >= 0,
            pow10(dec_digits(v)) >= 1,
    ;
}

proof fn lemma_concat_nonneg(vs: Seq<int>)
    ensures
        match concat_raw(vs) {
            Some(c) => c >= 0,
            None => true,
        },
    decreases vs.len(),
{
    if vs.len() > 1 {
        lemma_concat_nonneg(vs.drop_last());
        match concat_raw(vs.drop_last()) {
            Some(acc) => {
                if vs.last() >= 0 {
                    lemma_concat_grows(acc, vs.last());
                }
            },
            None => {},
        }
    }
}

/// Glues one more value onto a glued number; `None` when the result
/// leaves the machine range, in which case the whole glued number would.
#[verifier::loop_isolation(false)]
fn append_value(acc: i64, v: i64) -> (r: Option<i64>)
    requires
        acc >= 0,
        v >= 0,
    ensures
        match r {
            Some(c) => c as int == acc * pow10(dec_digits(v as int)) + v && c >= 0,
            None => acc * pow10(dec_digits(v as int)) + v > i64::MAX,
        },
{
    proof {
        lemma_pow10_pos(dec_digits(v as int));
        lemma_concat_grows(acc as int, v as int);
    }
    // count the digits of the value
    let mut w = v;
    let mut d: u32 = 1;
    while w >= 10
        invariant
            w >= 0,
            1 <= d <= 19,
            dec_digits(v as int) == d - 1 + dec_digits(w as int),
            w as int <= (v as int) / pow10((d - 1) as nat),
        decreases w,
    {
        proof {
            lemma_dec_digits_bound(w as int);
            lemma_pow10_pos((d - 1) as nat);
            assert(pow10(d as nat) == 10 * pow10((d - 1) as nat));
            assert((w as int) / 10 <= (v as int) / pow10(d as nat)) by (nonlinear_arith)
                requires
                    w as int <= (v as int) / pow10((d - 1) as nat),
                    w >= 10,
                    v >= 0,
                    pow10((d - 1) as nat) >= 1,
                    pow10(d as nat) == 10 * pow10((d - 1) as nat),
            ;
            // nineteen digits already cover the whole machine range
            vstd::arithmetic::div_mod::lemma_fundamental_div_mod(v as int, pow10((d - 1) as nat));
            assert(v as int >= pow10(d as nat)) by (nonlinear_arith)
                requires
                    w as int <= (v as int) / pow10((d - 1) as nat),
                    w >= 10,
                    pow10((d - 1) as nat) >= 1,
                    pow10(d as nat) == 10 * pow10((d - 1) as nat),
                    v as int == pow10((d - 1) as nat) * ((v as int) / pow10((d - 1) as nat)) + (
                    v as int) % pow10((d - 1) as nat),
                    (v as int) % pow10((d - 1) as nat) >= 0,
            ;
            if d >= 19 {
                assert(pow10(19) > i64::MAX) by {
                    reveal_with_fuel(pow10, 21);
                }
                lemma_pow10_mono(19, d as nat);
                assert(false);
            }
        }
        w = w / 10;
        d = d + 1;
    }
    proof {
        assert(dec_digits(w as int) == 1);
        assert(dec_digits(v as int) == d as nat);
    }
    // shift the glued number left by that many digits
    let mut m = acc;
    let mut j: u32 = 0;
    while j < d
        invariant
            j <= d,
            m >= 0,
            m as int == acc * pow10(j as nat),
        decreases d - j,
    {
        let m2 = match m.checked_mul(10) {
            None => {
                proof {
                    lemma_pow10_step_bound(acc as int, j as nat, d as nat);
                    assert(acc * pow10((j + 1) as nat) <= acc * pow10(d as nat));
                    assert(acc * pow10(d as nat) + v > i64::MAX);
                }
                return None;
            },
            Some(m2) => m2,
        };
        proof {
            assert(pow10((j + 1) as nat) == 10 * pow10(j as nat));
            assert(acc * (10 * pow10(j as nat)) == 10 * (acc * pow10(j as nat)))
                by (nonlinear_arith);
        }
        m = m2;
        j = j + 1;
    }
    match m.checked_add(v) {
        None => None,
        Some(c) => Some(c),
    }
}

/// A number of at most nineteen digits: any machine value fits.
proof fn lemma_dec_digits_bound(v: int)
    requires
        0 <= v,
    ensures
        dec_digits(v) >= 1,
    decreases v,
{
    if v >= 10 {
        lemma_dec_digits_bound(v / 10);
    }
}

/// Shifting further never shrinks a nonnegative glued number.
proof fn lemma_pow10_step_bound(acc: int, j: nat, d: nat)
    requires
        acc >= 0,
        j < d,
    ensures
        acc * pow10((j + 1) as nat) <= acc * pow10(d),
        10 * (acc * pow10(j)) == acc * pow10((j + 1) as nat),
{
    lemma_pow10_mono((j + 1) as nat, d);
    assert(acc * pow10((j + 1) as nat) <= acc * pow10(d)) by (nonlinear_arith)
        requires
            acc >= 0,
            pow10((j + 1) as nat) <= pow10(d),
    ;
    assert(pow10((j + 1) as nat) == 10 * pow10(j));
    assert(acc * (10 * pow10(j)) == 10 * (acc * pow10(j))) by (nonlinear_arith);
}

proof fn lemma_pow10_mono(a: nat, b: nat)
    requires
        a <= b,
    ensures
        pow10(a) <= pow10(b),
    decreases b,
{
    if a < b {
        lemma_pow10_mono(a, (b - 1) as nat);
        lemma_pow10_pos((b - 1) as nat);
    }
}

/// Glues the numbers of a list into one; `None` when the list is empty,
/// a value is negative, or the glued number leaves the machine range.
#[verifier::loop_isolation(false)]
pub fn concat_numbers(vs: &Vec<i64>) -> (r: Option<i64>)
    ensures
        ({
            let model = concat_raw(vs@.map_values(|x: i64| x as int));
            match r {
                Some(c) => model == Some(c as int),
                None => model is None || model.unwrap() > i64::MAX,
            }
        }),
{
    let ghost vv = vs@.map_values(|x: i64| x as int);
    if vs.len() == 0 {
        return None;
    }
    let first = vs[0];
    if first < 0 {
        proof {
            lemma_concat_neg(vv, 0);
        }
        return None;
    }
    let mut acc = first;
    let n = vs.len();
    let mut i: usize = 1;
    proof {
        assert(vv.take(1) =~= seq![vv[0]]);
        assert(concat_raw(vv.take(1)) == Some(acc as int));
        lemma_concat_nonneg(vv.take(1));
    }
    while i < n
        invariant
            1 <= i <= n,
            acc >= 0,
            concat_raw(vv.take(i as int)) == Some(acc as int),
        decreases n - i,
    {
        let v = vs[i];
        proof {
            assert(vv.take(i + 1).drop_last() =~= vv.take(i as int));
            assert(vv.take(i + 1).last() == vv[i as int]);
        }
        if v < 0 {
            proof {
                lemma_concat_neg(vv, i as int);
            }
            return None;
        }
        acc = match append_value(acc, v) {
            None => {
                proof {
                    lemma_concat_prefix_grows(vv, i + 1);
                }
                return None;
            },
            Some(acc2) => acc2,
        };
        i = i + 1;
    }
    proof {
        assert(vv.take(n as int) =~= vv);
    }
    Some(acc)
}

/// A negative value anywhere spoils the glued number.
proof fn lemma_concat_neg(vs: Seq<int>, i: int)
    requires
        0 <= i < vs.len(),
        vs[i] < 0,
    ensures
        concat_raw(vs) is None,
    decreases vs.len(),
{
    if vs.len() > 1 {
        if i < vs.len() - 1 {
            assert(vs.drop_last()[i] == vs[i]);
            lemma_concat_neg(vs.drop_last(), i);
        }
    }
}

/// The glued number of a prefix never exceeds that of the whole list.
proof fn lemma_concat_prefix_grows(vs: Seq<int>, k: int)
    requires
        1 <= k <= vs.len(),
    ensures
        match (concat_raw(vs.take(k)), concat_raw(vs)) {
            (Some(a), Some(b)) => a <= b,
            (None, Some(b)) => false,
            _ => true,
        },
    decreases vs.len() - k,
{
    if k == vs.len() {
        assert(vs.take(k) =~= vs);
    } else {
        lemma_concat_prefix_grows(vs, k + 1);
        assert(vs.take(k + 1).drop_last() =~= vs.take(k));
        assert(vs.take(k + 1).last() == vs[k]);
        match concat_raw(vs.take(k)) {
            Some(a) => {
                lemma_concat_nonneg(vs.take(k));
                if vs[k] >= 0 {
                    lemma_concat_grows(a, vs[k]);
                }
            },
            None => {},
        }
    }
}

/// The ways to win the single glued race of the two input lines.
///
/// `BadInput` comes exactly when the text does not parse as two race
/// lines, a glued number is missing or negative, or a glued number leaves
/// the machine range.
#[verifier::loop_isolation(false)]
pub fn process(input: &[u8]) -> (r: Result<i64, Error>)
    requires
        ({
            match races_model(input@) {
                Some((ts, ds)) => match (concat_raw(ts), concat_raw(ds)) {
                    (Some(t), Some(d)) => t <= i64::MAX && d <= i64::MAX ==> t * t <= i64::MAX,
                    _ => true,
                },
                None => true,
            }
        }),
    ensures
        match r {
            Ok(n) => match races_model(input@) {
                Some((ts, ds)) => match (concat_raw(ts), concat_raw(ds)) {
                    (Some(t), Some(d)) => t <= i64::MAX && d <= i64::MAX && n as int
                        == ways_value(t, d),
                    _ => false,
                },
                None => false,
            },
            Err(e) => e == Error::BadInput && match races_model(input@) {
                Some((ts, ds)) => match (concat_raw(ts), concat_raw(ds)) {
                    (Some(t), Some(d)) => t > i64::MAX || d > i64::MAX,
                    _ => true,
                },
                None => true,
            },
        },
{
    let (times, dists) = match parse_input(input) {
        Err(e) => {
            return Err(Error::BadInput);
        },
        Ok(x) => x,
    };
    proof {
        assert(times@.map_values(|x: i64| x as int) =~= crate::day09::ints(times@));
        assert(dists@.map_values(|x: i64| x as int) =~= crate::day09::ints(dists@));
    }
    let time2 = match concat_numbers(&times) {
        None => {
            return Err(Error::BadInput);
        },
        Some(t) => t,
    };
    let distance2 = match concat_numbers(&dists) {
        None => {
            return Err(Error::BadInput);
        },
        Some(d) => d,
    };
    proof {
        lemma_concat_nonneg(times@.map_values(|x: i64| x as int));
        lemma_concat_nonneg(dists@.map_values(|x: i64| x as int));
    }
    let race2 = Race::new(time2, distance2);
    Ok(race2.ways_to_win())
}

} // verus!
