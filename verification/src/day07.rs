//! Camel card hands: a hand is read as its card counts, ordered from the
//! largest group of the highest card downward.

use vstd::prelude::*;
use crate::Error;
use crate::text::{digits_end, int_value, sign_end, skip_spaces, spaces_end, token_end,
    find_token_end, scan_i64};

verus! {

/// One card, by its strength: ace fourteen down to the digit cards.
#[derive(Clone, Copy, Debug, PartialEq, Eq, Structural)]
pub struct Card(pub u8);

/// True of the bytes that denote a card.
pub open spec fn valid_card_char(c: u8) -> bool {
    c == ('A' as u8) || c == ('K' as u8) || c == ('Q' as u8) || c == ('J' as u8) || c == (
    'T' as u8) || (('0' as u8) <= c && c <= ('9' as u8))
}

/// The strength a card byte denotes.
pub open spec fn card_value(c: u8) -> int {
    if c == ('A' as u8) {
        14
    } else if c == ('K' as u8) {
        13
    } else if c == ('Q' as u8) {
        12
    } else if c == ('J' as u8) {
        11
    } else if c == ('T' as u8) {
        10
    } else {
        c - ('0' as u8)
    }
}

/// The strength of one card byte.
pub fn char_to_value(c: u8) -> (r: Card)
    requires
        valid_card_char(c),
    ensures
        r.0 as int == card_value(c),
{
    let num: u8 = if c == ('A' as u8) {
        14
    } else if c == ('K' as u8) {
        13
    } else if c == ('Q' as u8) {
        12
    } else if c == ('J' as u8) {
        11
    } else if c == ('T' as u8) {
        10
    } else {
        c - ('0' as u8)
    };
    Card(num)
}

/// A group of equal cards: how many, and of which card.
#[derive(Clone, Copy, Debug, PartialEq, Eq, Structural)]
pub struct NOfAKind {
    pub n: u8,
    pub value: Card,
}

/// A hand: its card groups, largest and strongest first.
#[derive(Clone, Debug, PartialEq, Eq)]
pub struct Hand {
    pub cards: Vec<NOfAKind>,
}

/// One hand with its bid.
#[derive(Clone, Debug, PartialEq, Eq)]
pub struct Play {
    pub hand: Hand,
    pub bid: i64,
}

/// The type score of a hand: the sum of the squared group sizes, which
/// orders five of a kind over four of a kind and so on down.
pub open spec fn score_spec(cards: Seq<NOfAKind>) -> int
    decreases cards.len(),
{
    if cards.len() == 0 {
        0
    } else {
        score_spec(cards.drop_last()) + cards.last().n * cards.last().n
    }
}

proof fn lemma_score_nonneg(cards: Seq<NOfAKind>)
    ensures
        score_spec(cards) >= 0,
    decreases cards.len(),
{
    if cards.len() > 0 {
        lemma_score_nonneg(cards.drop_last());
    }
}

impl Hand {
    /// The type score of the hand.
    pub fn n_score(&self) -> (r: u8)
        requires
            score_spec(self.cards@) <= u8::MAX,
        ensures
            r as int == score_spec(self.cards@),
    {
        let ghost cs = self.cards@;
        let n = self.cards.len();
        let mut sum: u8 = 0;
        let mut i: usize = 0;
        proof {
            assert(cs.take(0) =~= Seq::<NOfAKind>::empty());
        }
        while i < n
            invariant
                i <= n,
                n == cs.len(),
                cs == self.cards@,
                score_spec(cs) <= u8::MAX,
                sum as int == score_spec(cs.take(i as int)),
            decreases n - i,
        {
            proof {
                assert(cs.take(i + 1).drop_last() =~= cs.take(i as int));
                assert(cs.take(i + 1).last() == cs[i as int]);
                lemma_score_prefix(cs, i + 1);
                lemma_score_nonneg(cs.take(i as int));
            }
            let g = self.cards[i];
            sum = sum + g.n * g.n;
            i = i + 1;
        }
        proof {
            assert(cs.take(n as int) =~= cs);
        }
        sum
    }

    /// The hand's cards written out, each group expanded.
    pub fn cards_as_vec(&self) -> (r: Vec<Card>)
        ensures
            r@ == expand_spec(self.cards@),
    {
        let ghost cs = self.cards@;
        let mut out: Vec<Card> = Vec::new();
        let n = self.cards.len();
        let mut i: usize = 0;
        proof {
            assert(cs.take(0) =~= Seq::<NOfAKind>::empty());
            assert(expand_spec(cs.take(0)) =~= Seq::<Card>::empty());
            assert(out@ =~= expand_spec(cs.take(0)));
        }
        while i < n
            invariant
                i <= n,
                n == cs.len(),
                cs == self.cards@,
                out@ == expand_spec(cs.take(i as int)),
            decreases n - i,
        {
            let g = self.cards[i];
            let mut k: u8 = 0;
            let ghost out0 = out@;
            while k < g.n
                invariant
                    k <= g.n,
                    out@ == out0 + rep_spec(g.value, k as int),
                decreases g.n - k,
            {
                proof {
                    assert(rep_spec(g.value, k + 1).drop_last() =~= rep_spec(g.value, k as int));
                }
                let ghost before = out@;
                out.push(g.value);
                proof {
                    assert(out@ =~= out0 + rep_spec(g.value, k + 1));
                }
                k = k + 1;
            }
            proof {
                assert(cs.take(i + 1).drop_last() =~= cs.take(i as int));
                assert(cs.take(i + 1).last() == cs[i as int]);
                assert(expand_spec(cs.take(i + 1)) == expand_spec(cs.take(i as int)) + rep_spec(
                    cs[i as int].value,
                    cs[i as int].n as int,
                ));
            }
            i = i + 1;
        }
        proof {
            assert(cs.take(n as int) =~= cs);
        }
        out
    }
}

proof fn lemma_score_prefix(cs: Seq<NOfAKind>, k: int)
    requires
        0 < k <= cs.len(),
    ensures
        score_spec(cs.take(k)) <= score_spec(cs),
    decreases cs.len() - k,
{
    if k == cs.len() {
        assert(cs.take(k) =~= cs);
    } else {
        lemma_score_prefix(cs, k + 1);
        assert(cs.take(k + 1).drop_last() =~= cs.take(k));
        assert(cs.take(k + 1).last().n * cs.take(k + 1).last().n >= 0);
    }
}

/// The card repeated `n` times.
pub open spec fn rep_spec(v: Card, n: int) -> Seq<Card>
    decreases n
        when 0 <= n
{
    if n <= 0 {
        Seq::empty()
    } else {
        rep_spec(v, n - 1).push(v)
    }
}

/// The groups written out in order.
pub open spec fn expand_spec(cards: Seq<NOfAKind>) -> Seq<Card>
    decreases cards.len(),
{
    if cards.len() == 0 {
        Seq::empty()
    } else {
        expand_spec(cards.drop_last()) + rep_spec(cards.last().value, cards.last().n as int)
    }
}

/// How many cards of strength `v` the bytes hold.
pub open spec fn value_count(cs: Seq<u8>, v: int) -> int
    decreases cs.len(),
{
    if cs.len() == 0 {
        0
    } else {
        value_count(cs.drop_last(), v) + if card_value(cs.last()) == v {
            1int
        } else {
            0int
        }
    }
}

/// Whether the groups stand strictly descending, first by size, then by
/// card strength.
pub open spec fn sorted_desc(cards: Seq<NOfAKind>) -> bool {
    forall|i: int, j: int|
        0 <= i < j < cards.len() ==> ((#[trigger] cards[i]).n > (#[trigger] cards[j]).n || (
        cards[i].n == cards[j].n && cards[i].value.0 > cards[j].value.0))
}

/// What a well-built hand looks like for the card bytes `cs`: groups
/// strictly ordered, each group carrying its card's true count, and every
/// card present.
pub open spec fn hand_matches(cards: Seq<NOfAKind>, cs: Seq<u8>) -> bool {
    &&& sorted_desc(cards)
    &&& forall|k: int|
        0 <= k < cards.len() ==> (#[trigger] cards[k]).n as int == value_count(
            cs,
            cards[k].value.0 as int,
        ) && cards[k].n >= 1 && cards[k].value.0 < 15
    &&& forall|v: int|
        0 <= v < 15 && value_count(cs, v) >= 1 ==> exists|k: int|
            0 <= k < cards.len() && (#[trigger] cards[k]).value.0 as int == v
}

impl Play {
    /// A play of the given hand and bid.
    pub fn new(hand: Hand, bid: i64) -> (r: Self)
        ensures
            r.hand == hand && r.bid == bid,
    {
        Self { hand, bid }
    }

    /// Builds the play one card token and one bid token denote: the hand
    /// grouped and ordered, and the bid read as a number.  Rejects a bad
    /// card byte, more than two hundred and fifty-five of one card, and a
    /// bid that is not a number fitting the result.
    #[verifier::loop_isolation(false)]
    pub fn from_strs(cards: &[u8], bid: &[u8]) -> (r: Option<Self>)
        ensures
            match r {
                Some(p) => {
                    &&& forall|i: int| 0 <= i < cards@.len() ==> valid_card_char(#[trigger] cards@[i])
                    &&& forall|v: int| 0 <= v < 15 ==> value_count(cards@, v) <= 255
                    &&& hand_matches(p.hand.cards@, cards@)
                    &&& digits_end(bid@, sign_end(bid@, 0)) == bid@.len()
                    &&& bid@.len() > sign_end(bid@, 0)
                    &&& p.bid as int == int_value(bid@, 0)
                },
                None => (exists|i: int|
                    0 <= i < cards@.len() && !valid_card_char(#[trigger] cards@[i])) || (exists|
                    v: int,
                |
                    0 <= v < 15 && #[trigger] value_count(cards@, v) > 255) || digits_end(
                    bid@,
                    sign_end(bid@, 0),
                ) != bid@.len() || bid@.len() == sign_end(bid@, 0) || int_value(bid@, 0)
                    > i64::MAX || int_value(bid@, 0) < i64::MIN,
            },
    {
        let ghost csv = cards@;
        let mut counts: Vec<u8> = Vec::new();
        let mut z: usize = 0;
        while z < 15
            invariant
                z <= 15,
                counts@.len() == z,
                forall|v: int| 0 <= v < z ==> #[trigger] counts@[v] == 0u8,
            decreases 15 - z,
        {
            counts.push(0);
            z = z + 1;
        }
        let n = cards.len();
        let mut i: usize = 0;
        proof {
            assert(csv.take(0) =~= Seq::<u8>::empty());
        }
        while i < n
            invariant
                i <= n,
                counts@.len() == 15,
                forall|j: int| 0 <= j < i ==> valid_card_char(#[trigger] csv[j]),
                forall|v: int|
                    0 <= v < 15 ==> #[trigger] counts@[v] as int == value_count(
                        csv.take(i as int),
                        v,
                    ),
            decreases n - i,
        {
            let c = cards[i];
            if !(c == ('A' as u8) || c == ('K' as u8) || c == ('Q' as u8) || c == ('J' as u8) || c
                == ('T' as u8) || (('0' as u8) <= c && c <= ('9' as u8))) {
                return None;
            }
            let card = char_to_value(c);
            let v = card.0 as usize;
            proof {
                assert(csv.take(i + 1).drop_last() =~= csv.take(i as int));
                assert(csv.take(i + 1).last() == csv[i as int]);
                assert(card_value(c) < 15);
            }
            if counts[v] == 255 {
                proof {
                    lemma_value_count_mono(csv, i + 1, v as int);
                }
                return None;
            }
            let updated = counts[v] + 1;
            counts[v] = updated;
            i = i + 1;
        }
        proof {
            assert(csv.take(n as int) =~= csv);
        }
        proof {
            assert forall|v: int| 0 <= v < 15 implies value_count(csv, v) <= 255 by {
                assert(counts@[v] as int == value_count(csv, v));
            }
        }
        // gather the groups, largest count first, strongest card first
        let mut groups: Vec<NOfAKind> = Vec::new();
        let mut size: usize = 255;
        while size >= 1
            invariant
                size <= 255,
                counts@.len() == 15,
                forall|v: int| 0 <= v < 15 ==> #[trigger] counts@[v] as int == value_count(csv, v),
                sorted_desc(groups@),
                forall|k: int|
                    0 <= k < groups@.len() ==> (#[trigger] groups@[k]).n as int == value_count(
                        csv,
                        groups@[k].value.0 as int,
                    ) && groups@[k].n > size && groups@[k].value.0 < 15,
                forall|v: int|
                    0 <= v < 15 && value_count(csv, v) > size ==> exists|k: int|
                        0 <= k < groups@.len() && (#[trigger] groups@[k]).value.0 as int == v,
            decreases size,
        {
            let mut v: usize = 15;
            let ghost g0 = groups@;
            while v >= 1
                invariant
                    v <= 15,
                    1 <= size <= 255,
                    counts@.len() == 15,
                    forall|q: int|
                        0 <= q < 15 ==> #[trigger] counts@[q] as int == value_count(csv, q),
                    sorted_desc(groups@),
                    forall|k: int|
                        0 <= k < groups@.len() ==> (#[trigger] groups@[k]).n as int == value_count(
                            csv,
                            groups@[k].value.0 as int,
                        ) && (groups@[k].n > size || (groups@[k].n == size && groups@[k].value.0
                            >= v)) && groups@[k].value.0 < 15,
                    forall|q: int|
                        0 <= q < 15 && (value_count(csv, q) > size || (value_count(csv, q) == size
                            && q >= v)) ==> exists|k: int|
                            0 <= k < groups@.len() && (#[trigger] groups@[k]).value.0 as int == q,
                decreases v,
            {
                let val = v - 1;
                if counts[val] as usize == size {
                    let ghost before = groups@;
                    groups.push(NOfAKind { n: counts[val], value: Card(val as u8) });
                    proof {
                        assert(groups@.drop_last() =~= before);
                        assert forall|q: int|
                            0 <= q < 15 && (value_count(csv, q) > size || (value_count(csv, q)
                                == size && q >= val)) implies exists|k: int|
                            0 <= k < groups@.len() && (#[trigger] groups@[k]).value.0 as int
                                == q by {
                            if q == val {
                                assert(groups@[groups@.len() - 1].value.0 as int == q);
                            } else {
                                assert(exists|k: int|
                                    0 <= k < before.len() && (#[trigger] before[k]).value.0 as int
                                        == q);
                                let k = choose|k: int|
                                    0 <= k < before.len() && (#[trigger] before[k]).value.0 as int
                                        == q;
                                assert(groups@[k].value.0 as int == q);
                            }
                        }
                    }
                }
                v = v - 1;
            }
            size = size - 1;
        }
        // the bid token must be one whole number
        let (e, bid_value) = match scan_i64(bid, 0) {
            None => {
                proof {
                    crate::text::lemma_digits_end(bid@, sign_end(bid@, 0));
                }
                return None;
            },
            Some(x) => x,
        };
        if e != bid.len() {
            return None;
        }
        Some(Play { hand: Hand { cards: groups }, bid: bid_value })
    }

    /// Builds the play one line denotes: a card token, a blank, and a bid
    /// token, with nothing after them.
    #[verifier::loop_isolation(false)]
    pub fn from_line(line: &[u8]) -> (r: Result<Self, Error>)
        ensures
            match r {
                Ok(p) => ({
                    let a = spaces_end(line@, 0);
                    let b = token_end(line@, a);
                    let c = spaces_end(line@, b);
                    let d = token_end(line@, c);
                    &&& b > a
                    &&& d > c
                    &&& spaces_end(line@, d) == line@.len()
                    &&& hand_matches(p.hand.cards@, line@.subrange(a, b))
                    &&& p.bid as int == int_value(line@.subrange(c, d), 0)
                }),
                Err(e) => e == Error::BadInput,
            },
    {
        let a = skip_spaces(line, 0);
        let b = find_token_end(line, a);
        if b == a {
            return Err(Error::BadInput);
        }
        let c = skip_spaces(line, b);
        let d = find_token_end(line, c);
        if d == c {
            return Err(Error::BadInput);
        }
        let rest = skip_spaces(line, d);
        if rest != line.len() {
            return Err(Error::BadInput);
        }
        let cards = crate::text::copy_range(line, a, b);
        let bid = crate::text::copy_range(line, c, d);
        match Self::from_strs(cards.as_slice(), bid.as_slice()) {
            None => Err(Error::BadInput),
            Some(p) => Ok(p),
        }
    }
}

/// Counting one more byte never lowers a card's count.
proof fn lemma_value_count_mono(cs: Seq<u8>, k: int, v: int)
    requires
        0 < k <= cs.len(),
    ensures
        value_count(cs, v) >= value_count(cs.take(k), v) - 1 + (if card_value(cs[k - 1]) == v {
            1int
        } else {
            0int
        }),
        value_count(cs, v) >= value_count(cs.take(k), v),
    decreases cs.len() - k,
{
    if k == cs.len() {
        assert(cs.take(k) =~= cs);
    } else {
        lemma_value_count_mono(cs, k + 1, v);
        assert(cs.take(k + 1).drop_last() =~= cs.take(k));
        assert(cs.take(k + 1).last() == cs[k]);
    }
}

} // verus!
