//! Network walking: follow left/right instructions through a map of
//! three-letter nodes, and for ghosts starting on every `..A` node take
//! the least common multiple of their path lengths.

use vstd::prelude::*;
use crate::Error;
use crate::text::{lines_of, split_lines, deep};
use std::collections::HashMap;

verus! {

broadcast use vstd::std_specs::hash::group_hash_axioms;

/// True of the uppercase letters.
pub open spec fn is_upper(b: u8) -> bool {
    ('A' as u8) <= b && b <= ('Z' as u8)
}

/// The code of a three-letter node name, base twenty-six.
pub open spec fn name_code(a: u8, b: u8, c: u8) -> int {
    (a - ('A' as u8)) * 676 + (b - ('A' as u8)) * 26 + (c - ('A' as u8))
}

/// The node and its two successors one line denotes: a name, ` = (`, the
/// left name, a comma and a blank, the right name, and `)`.
pub open spec fn node_line(l: Seq<u8>) -> Option<(int, int, int)> {
    if l.len() >= 16 && is_upper(l[0]) && is_upper(l[1]) && is_upper(l[2]) && l[3] == (' ' as u8)
        && l[4] == ('=' as u8) && l[5] == (' ' as u8) && l[6] == ('(' as u8) && is_upper(l[7])
        && is_upper(l[8]) && is_upper(l[9]) && l[10] == (',' as u8) && (l[11] == (' ' as u8)
        || l[11] == ('\t' as u8)) && is_upper(l[12]) && is_upper(l[13]) && is_upper(l[14]) && l[15]
        == (')' as u8) {
        Some(
            (
                name_code(l[0], l[1], l[2]),
                name_code(l[7], l[8], l[9]),
                name_code(l[12], l[13], l[14]),
            ),
        )
    } else {
        None
    }
}

/// The node map the lines from `i` on denote; `None` on a bad line or a
/// doubled node name.
pub open spec fn nodes_model(ls: Seq<Seq<u8>>, i: int) -> Option<Map<u32, (u32, u32)>>
    decreases ls.len() - i when 0 <= i <= ls.len()
{
    if i >= ls.len() {
        Some(Map::empty())
    } else {
        match (node_line(ls[i]), nodes_model(ls, i + 1)) {
            (Some((n, l, r)), Some(rest)) => {
                if rest.contains_key(n as u32) {
                    None
                } else {
                    Some(rest.insert(n as u32, (l as u32, r as u32)))
                }
            },
            _ => None,
        }
    }
}

/// The codes of the nodes ending in `A`, in line order.
pub open spec fn starts_model(ls: Seq<Seq<u8>>, i: int) -> Seq<u32>
    decreases ls.len() - i when 0 <= i <= ls.len()
{
    if i >= ls.len() {
        Seq::empty()
    } else {
        let rest = starts_model(ls, i + 1);
        match node_line(ls[i]) {
            Some((n, l, r)) => if n % 26 == 0 {
                seq![n as u32] + rest
            } else {
                rest
            },
            None => rest,
        }
    }
}

/// Whether the walk is done: at `ZZZ` for one walker, at any `..Z` node
/// for the ghosts.
pub open spec fn finished(pos: u32, ghosts: bool) -> bool {
    if ghosts {
        pos % 26 == 25
    } else {
        pos == 17575
    }
}

/// Walks the network from `pos`, `steps` steps in, following the cycled
/// instruction list: the number of steps when the walk first stands on a
/// finished node, or `None` when an instruction is not `L` or `R`, a node
/// is missing, the instruction line is empty, or `fuel` runs out.
pub open spec fn walk8(
    m: Map<u32, (u32, u32)>,
    instr: Seq<u8>,
    pos: u32,
    steps: int,
    ghosts: bool,
    fuel: nat,
) -> Option<int>
    decreases fuel,
{
    if finished(pos, ghosts) {
        Some(steps)
    } else if fuel == 0 {
        None
    } else if instr.len() == 0 {
        None
    } else {
        let ins = instr[steps % (instr.len() as int)];
        if ins != ('L' as u8) && ins != ('R' as u8) {
            None
        } else if !m.contains_key(pos) {
            None
        } else {
            let nxt = if ins == ('L' as u8) {
                m[pos].0
            } else {
                m[pos].1
            };
            walk8(m, instr, nxt, steps + 1, ghosts, (fuel - 1) as nat)
        }
    }
}

/// The whole input: the instruction line, a blank line, and the node map.
pub open spec fn input_model(ls: Seq<Seq<u8>>) -> Option<(Seq<u8>, Map<u32, (u32, u32)>)> {
    if ls.len() < 2 || ls[1].len() != 0 {
        None
    } else {
        match nodes_model(ls, 2) {
            None => None,
            Some(m) => Some((ls[0], m)),
        }
    }
}

/// Whether the one walker has reached the target node `ZZZ`.
pub fn is_finished_part1(position: u32) -> (r: bool)
    ensures
        r == finished(position, false),
{
    position == 17575
}

/// Whether a ghost stands on a node whose name ends in `Z`.
pub fn is_finished_part2(position: u32) -> (r: bool)
    ensures
        r == finished(position, true),
{
    position % 26 == 25
}

/// Follows the cycled instructions from `start` until a finished node.
///
/// The walk gives up once it has taken enough steps to have repeated one
/// of the possible three-letter nodes at the head of the instruction
/// list, past which it could only cycle forever.
#[verifier::loop_isolation(false)]
pub fn get_number_of_steps_to_target(
    instructions: &[u8],
    start: u32,
    ghosts: bool,
    nodes: &HashMap<u32, (u32, u32)>,
) -> (r: Result<i64, Error>)
    ensures
        ({
            let fuel = (17577 * instructions@.len() + 1) as nat;
            match r {
                Ok(n) => walk8(nodes@, instructions@, start, 0, ghosts, fuel) == Some(n as int),
                Err(e) => e == Error::NoProgress && (walk8(
                    nodes@,
                    instructions@,
                    start,
                    0,
                    ghosts,
                    fuel,
                ) is None || walk8(nodes@, instructions@, start, 0, ghosts, fuel).unwrap()
                    > i64::MAX),
            }
        }),
{
    let ghost fuel0 = (17577 * instructions@.len() + 1) as nat;
    let ilen = instructions.len();
    let mut fuel: u128 = 17577u128 * (ilen as u128) + 1;
    let mut pos = start;
    let mut steps: u128 = 0;
    proof {
        assert(fuel == fuel0);
    }
    loop
        invariant
            steps + fuel == fuel0,
            walk8(nodes@, instructions@, start, 0, ghosts, fuel0) == walk8(
                nodes@,
                instructions@,
                pos,
                steps as int,
                ghosts,
                fuel as nat,
            ),
        decreases fuel,
    {
        let done = if ghosts {
            is_finished_part2(pos)
        } else {
            is_finished_part1(pos)
        };
        if done {
            if steps > i64::MAX as u128 {
                return Err(Error::NoProgress);
            }
            return Ok(steps as i64);
        }
        if fuel == 0 {
            return Err(Error::NoProgress);
        }
        if ilen == 0 {
            return Err(Error::NoProgress);
        }
        let idx = (steps % (ilen as u128)) as usize;
        let ins = instructions[idx];
        if ins != ('L' as u8) && ins != ('R' as u8) {
            return Err(Error::NoProgress);
        }
        let pair = match nodes.get(&pos) {
            None => {
                return Err(Error::NoProgress);
            },
            Some(p) => *p,
        };
        pos = if ins == ('L' as u8) {
            pair.0
        } else {
            pair.1
        };
        steps = steps + 1;
        fuel = fuel - 1;
    }
}

/// Relies on num's `num::integer::lcm`: the least common multiple of two
/// positive numbers, which exists within `i64` by the caller's witness,
/// so the computation `a / gcd * b` cannot leave the machine range.
#[verifier::external_body]
fn lcm_i64(a: i64, b: i64) -> (r: i64)
    requires
        1 <= a,
        1 <= b,
        exists|m: int| 1 <= m <= i64::MAX && #[trigger] (m % (a as int)) == 0 && m % (b as int)
            == 0,
    ensures
        1 <= r,
        r as int % (a as int) == 0,
        r as int % (b as int) == 0,
        forall|m: int| 1 <= m < r ==> !(#[trigger] (m % (a as int)) == 0 && m % (b as int) == 0),
{
    num::integer::lcm(a, b)
}

/// Whether `m` is a common multiple of every value of `ks`.
pub open spec fn is_cm(ks: Seq<int>, m: int) -> bool {
    forall|i: int| 0 <= i < ks.len() ==> m % #[trigger] ks[i] == 0
}

/// Divisibility carries across: what `b` divides, `c` divides too when
/// `c` divides `b`.
proof fn lemma_divides_trans(a: int, b: int, c: int)
    requires
        b >= 1,
        c >= 1,
        a % b == 0,
        b % c == 0,
    ensures
        a % c == 0,
{
    vstd::arithmetic::div_mod::lemma_fundamental_div_mod(a, b);
    vstd::arithmetic::div_mod::lemma_fundamental_div_mod(b, c);
    let q1 = a / b;
    let q2 = b / c;
    assert(a == (q1 * q2) * c) by (nonlinear_arith)
        requires
            a == b * q1,
            b == c * q2,
    ;
    vstd::arithmetic::div_mod::lemma_mod_multiples_basic(q1 * q2, c);
}

/// A common multiple of two numbers is a multiple of their least common
/// multiple.
proof fn lemma_pair_divides(a: int, b: int, r: int, big: int)
    requires
        a >= 1,
        b >= 1,
        r >= 1,
        r % a == 0,
        r % b == 0,
        forall|m: int| 1 <= m < r ==> !(#[trigger] (m % a) == 0 && m % b == 0),
        big >= 0,
        big % a == 0,
        big % b == 0,
    ensures
        big % r == 0,
{
    let q = big % r;
    vstd::arithmetic::div_mod::lemma_fundamental_div_mod(big, r);
    vstd::arithmetic::div_mod::lemma_mod_pos_bound(big, r);
    assert(q == big - r * (big / r));
    let ka = r / a;
    vstd::arithmetic::div_mod::lemma_fundamental_div_mod(r, a);
    assert(q == a * (-(ka * (big / r))) + big) by (nonlinear_arith)
        requires
            q == big - r * (big / r),
            r == a * ka,
    ;
    vstd::arithmetic::div_mod::lemma_mod_multiples_vanish(-(ka * (big / r)), big, a);
    assert(q % a == big % a);
    let kb = r / b;
    vstd::arithmetic::div_mod::lemma_fundamental_div_mod(r, b);
    assert(q == b * (-(kb * (big / r))) + big) by (nonlinear_arith)
        requires
            q == big - r * (big / r),
            r == b * kb,
    ;
    vstd::arithmetic::div_mod::lemma_mod_multiples_vanish(-(kb * (big / r)), big, b);
    assert(q % b == big % b);
    if q != 0 {
        assert(1 <= q < r);
        assert(false);
    }
}

/// A walk that starts on an unfinished node takes at least one step.
proof fn lemma_walk8_min_pos(
    m: Map<u32, (u32, u32)>,
    instr: Seq<u8>,
    pos: u32,
    ghosts: bool,
    fuel: nat,
)
    requires
        !finished(pos, ghosts),
    ensures
        match walk8(m, instr, pos, 0, ghosts, fuel) {
            Some(k) => k >= 1,
            None => true,
        },
{
    if fuel > 0 && instr.len() > 0 {
        let ins = instr[0];
        if (ins == ('L' as u8) || ins == ('R' as u8)) && m.contains_key(pos) {
            let nxt = if ins == ('L' as u8) {
                m[pos].0
            } else {
                m[pos].1
            };
            lemma_walk8_min(m, instr, nxt, 1, ghosts, (fuel - 1) as nat);
        }
    }
}

/// A finished walk has taken at least as many steps as it started with.
proof fn lemma_walk8_min(
    m: Map<u32, (u32, u32)>,
    instr: Seq<u8>,
    pos: u32,
    steps: int,
    ghosts: bool,
    fuel: nat,
)
    ensures
        match walk8(m, instr, pos, steps, ghosts, fuel) {
            Some(k) => k >= steps,
            None => true,
        },
    decreases fuel,
{
    if !finished(pos, ghosts) && fuel > 0 && instr.len() > 0 {
        let ins = instr[steps % (instr.len() as int)];
        if (ins == ('L' as u8) || ins == ('R' as u8)) && m.contains_key(pos) {
            let nxt = if ins == ('L' as u8) {
                m[pos].0
            } else {
                m[pos].1
            };
            lemma_walk8_min(m, instr, nxt, steps + 1, ghosts, (fuel - 1) as nat);
        }
    }
}

/// Reads the input: the instruction line, a blank line, and the node map,
/// together with the nodes ending in `A` in line order.
#[verifier::loop_isolation(false)]
pub fn parse_input(input: &[u8]) -> (r: Result<(Vec<u8>, HashMap<u32, (u32, u32)>, Vec<u32>),
    Error>)
    ensures
        match r {
            Ok((instr, nodes, starts)) => match input_model(split_lines(input@)) {
                Some((mi, mm)) => instr@ == mi && nodes@ == mm && starts@ == starts_model(
                    split_lines(input@),
                    2,
                ),
                None => false,
            },
            Err(e) => e == Error::BadInput && input_model(split_lines(input@)) is None,
        },
{
    let ghost ls = split_lines(input@);
    let lines = lines_of(input);
    proof {
        assert(ls.len() == lines@.len());
    }
    if lines.len() < 2 {
        return Err(Error::BadInput);
    }
    if lines[1].len() != 0 {
        proof {
            assert(ls[1] == deep(lines@)[1]);
            assert(deep(lines@)[1] == lines@[1]@);
        }
        return Err(Error::BadInput);
    }
    proof {
        assert(ls[1] == deep(lines@)[1]);
        assert(deep(lines@)[1] == lines@[1]@);
    }
    let n = lines.len();
    // build the node map backward, as each stage shadows nothing later
    let mut nodes: HashMap<u32, (u32, u32)> = HashMap::new();
    let mut i: usize = n;
    proof {
        assert(nodes@ =~= Map::<u32, (u32, u32)>::empty());
    }
    while i > 2
        invariant
            2 <= i <= n,
            nodes_model(ls, i as int) == Some(nodes@),
        decreases i,
    {
        i = i - 1;
        proof {
            assert(ls[i as int] == deep(lines@)[i as int]);
        }
        let (code, left, right) = match scan_node_line(lines[i].as_slice()) {
            None => {
                proof {
                    assert(nodes_model(ls, i as int) is None);
                    lemma_nodes_model_none(ls, i as int);
                }
                return Err(Error::BadInput);
            },
            Some(t) => t,
        };
        if nodes.contains_key(&code) {
            proof {
                assert(nodes_model(ls, i as int) is None);
                lemma_nodes_model_none(ls, i as int);
            }
            return Err(Error::BadInput);
        }
        nodes.insert(code, (left, right));
    }
    proof {
        if n == 2 {
            assert(nodes_model(ls, 2) == Some(nodes@));
        }
    }
    // gather the ghost start nodes in line order
    let mut starts: Vec<u32> = Vec::new();
    let mut j: usize = 2;
    proof {
        match nodes_model(ls, 2) {
            Some(_) => {},
            None => {
                assert(false);
            },
        }
        assert(starts@ + starts_model(ls, 2) =~= starts_model(ls, 2));
    }
    while j < n
        invariant
            2 <= j <= n,
            starts_model(ls, 2) == starts@ + starts_model(ls, j as int),
        decreases n - j,
    {
        proof {
            assert(ls[j as int] == deep(lines@)[j as int]);
        }
        match scan_node_line(lines[j].as_slice()) {
            None => {
                proof {
                    lemma_nodes_model_line(ls, j as int);
                    assert(false);
                }
            },
            Some((code, _, _)) => {
                if code % 26 == 0 {
                    let ghost starts0 = starts@;
                    starts.push(code);
                    proof {
                        assert(starts0 + (seq![code] + starts_model(ls, j + 1)) =~= starts@
                            + starts_model(ls, j + 1));
                    }
                }
            },
        }
        j = j + 1;
    }
    proof {
        assert(starts_model(ls, n as int) =~= Seq::<u32>::empty());
        assert(starts@ + Seq::<u32>::empty() =~= starts@);
    }
    let instructions = lines[0].clone();
    proof {
        assert(ls[0] == deep(lines@)[0]);
        assert(instructions@ =~= lines@[0]@);
    }
    Ok((instructions, nodes, starts))
}

/// A failure among later lines is a failure of the whole node list.
proof fn lemma_nodes_model_none(ls: Seq<Seq<u8>>, i: int)
    requires
        2 <= i <= ls.len(),
        nodes_model(ls, i) is None,
    ensures
        nodes_model(ls, 2) is None,
    decreases i,
{
    if i > 2 {
        assert(nodes_model(ls, i - 1) is None);
        lemma_nodes_model_none(ls, i - 1);
    }
}

/// A parseable stage list has only parseable lines.
proof fn lemma_nodes_model_line(ls: Seq<Seq<u8>>, j: int)
    requires
        2 <= j < ls.len(),
        nodes_model(ls, 2) is Some,
    ensures
        node_line(ls[j]) is Some,
    decreases j,
{
    lemma_nodes_model_some(ls, 2, j);
}

proof fn lemma_nodes_model_some(ls: Seq<Seq<u8>>, i: int, j: int)
    requires
        0 <= i <= j < ls.len(),
        nodes_model(ls, i) is Some,
    ensures
        node_line(ls[j]) is Some,
    decreases j - i,
{
    if i < j {
        lemma_nodes_model_some(ls, i + 1, j);
    }
}

/// Reads one node line: the node's code and its two successors' codes.
pub fn scan_node_line(l: &[u8]) -> (r: Option<(u32, u32, u32)>)
    ensures
        match r {
            Some((n, lft, rgt)) => node_line(l@) == Some((n as int, lft as int, rgt as int)),
            None => node_line(l@) is None,
        },
{
    if l.len() < 16 {
        return None;
    }
    let up = |c: u8| -> (r: bool)
        ensures
            r == is_upper(c),
        { ('A' as u8) <= c && c <= ('Z' as u8) };
    if !(up(l[0]) && up(l[1]) && up(l[2]) && l[3] == (' ' as u8) && l[4] == ('=' as u8) && l[5]
        == (' ' as u8) && l[6] == ('(' as u8) && up(l[7]) && up(l[8]) && up(l[9]) && l[10] == (
    ',' as u8) && (l[11] == (' ' as u8) || l[11] == ('\t' as u8)) && up(l[12]) && up(l[13]) && up(
        l[14],
    ) && l[15] == (')' as u8)) {
        return None;
    }
    let code = |a: u8, b: u8, c: u8| -> (r: u32)
        requires
            is_upper(a),
            is_upper(b),
            is_upper(c),
        ensures
            r as int == name_code(a, b, c),
        {
            ((a - ('A' as u8)) as u32) * 676 + ((b - ('A' as u8)) as u32) * 26 + ((c - (
            'A' as u8)) as u32)
        };
    Some((code(l[0], l[1], l[2]), code(l[7], l[8], l[9]), code(l[12], l[13], l[14])))
}

/// The walk results of every ghost start, or `None` when one fails or
/// does not fit the result type.
pub open spec fn steps_model(
    starts: Seq<u32>,
    m: Map<u32, (u32, u32)>,
    instr: Seq<u8>,
) -> Option<Seq<int>>
    decreases starts.len(),
{
    if starts.len() == 0 {
        Some(Seq::empty())
    } else {
        match (walk8(m, instr, starts[0], 0, true, (17577 * instr.len() + 1) as nat), steps_model(
            starts.skip(1),
            m,
            instr,
        )) {
            (Some(k), Some(rest)) => if k <= i64::MAX {
                Some(seq![k] + rest)
            } else {
                None
            },
            _ => None,
        }
    }
}

/// The steps from `AAA` to `ZZZ` under the instruction list.
///
/// `BadInput` comes exactly when the text is not an instruction line, a
/// blank line, and a well-formed node list; `NoProgress` when the walk
/// fails or leaves the result range.
pub fn part1(input: &[u8]) -> (r: Result<i64, Error>)
    ensures
        match r {
            Ok(n) => match input_model(split_lines(input@)) {
                Some((instr, m)) => walk8(m, instr, 0, 0, false, (17577 * instr.len() + 1) as nat)
                    == Some(n as int),
                None => false,
            },
            Err(e) => (e == Error::BadInput && input_model(split_lines(input@)) is None) || (e
                == Error::NoProgress && match input_model(split_lines(input@)) {
                Some((instr, m)) => walk8(m, instr, 0, 0, false, (17577 * instr.len() + 1) as nat)
                    is None || walk8(
                    m,
                    instr,
                    0,
                    0,
                    false,
                    (17577 * instr.len() + 1) as nat,
                ).unwrap() > i64::MAX,
                None => false,
            }),
        },
{
    let (instructions, nodes, _starts) = match parse_input(input) {
        Err(e) => {
            return Err(e);
        },
        Ok(x) => x,
    };
    get_number_of_steps_to_target(instructions.as_slice(), 0, false, &nodes)
}

/// The least number of steps after which every ghost walk stands on a
/// `..Z` node at once: the least common multiple of the walk lengths.
///
/// `BadInput` comes exactly when the text does not parse; `NoProgress`
/// when a ghost walk fails or leaves the result range.
#[verifier::loop_isolation(false)]
pub fn part2(input: &[u8]) -> (r: Result<i64, Error>)
    requires
        match input_model(split_lines(input@)) {
            Some((instr, m)) => match steps_model(starts_model(split_lines(input@), 2), m, instr) {
                Some(ks) => exists|big: int|
                    1 <= big <= i64::MAX && #[trigger] is_cm(ks, big),
                None => true,
            },
            None => true,
        },
    ensures
        match r {
            Ok(n) => match input_model(split_lines(input@)) {
                Some((instr, m)) => match steps_model(
                    starts_model(split_lines(input@), 2),
                    m,
                    instr,
                ) {
                    Some(ks) => 1 <= n && is_cm(ks, n as int) && forall|v: int|
                        1 <= v < n ==> !is_cm(ks, v),
                    None => false,
                },
                None => false,
            },
            Err(e) => (e == Error::BadInput && input_model(split_lines(input@)) is None) || (e
                == Error::NoProgress && match input_model(split_lines(input@)) {
                Some((instr, m)) => steps_model(
                    starts_model(split_lines(input@), 2),
                    m,
                    instr,
                ) is None,
                None => false,
            }),
        },
{
    let ghost ls = split_lines(input@);
    let (instructions, nodes, starts) = match parse_input(input) {
        Err(e) => {
            return Err(e);
        },
        Ok(x) => x,
    };
    let ghost sm = starts_model(ls, 2);
    let ghost mm = nodes@;
    let ghost mi = instructions@;
    let mut steps_taken: Vec<i64> = Vec::new();
    let ns = starts.len();
    let mut i: usize = 0;
    proof {
        assert(sm.skip(0) =~= sm);
        match steps_model(sm, mm, mi) {
            Some(full) => {
                assert(steps_taken@.map_values(|x: i64| x as int) + full =~= full);
            },
            None => {},
        }
    }
    while i < ns
        invariant
            i <= ns,
            ns == starts@.len(),
            forall|t: int| 0 <= t < steps_taken@.len() ==> #[trigger] steps_taken@[t] >= 1,
            match steps_model(sm.skip(i as int), mm, mi) {
                Some(rest) => steps_model(sm, mm, mi) == Some(
                    steps_taken@.map_values(|x: i64| x as int) + rest,
                ),
                None => steps_model(sm, mm, mi) is None,
            },
        decreases ns - i,
    {
        proof {
            assert(sm.skip(i as int)[0] == sm[i as int]);
            assert(sm.skip(i as int).skip(1) =~= sm.skip(i + 1));
        }
        let start = starts[i];
        proof {
            lemma_starts_end_a(ls, 2);
            assert(start % 26 == 0);
            assert(!finished(start, true));
            lemma_walk8_min_pos(mm, mi, start, true, (17577 * mi.len() + 1) as nat);
        }
        let k = match get_number_of_steps_to_target(
            instructions.as_slice(),
            start,
            true,
            &nodes,
        ) {
            Err(e) => {
                return Err(Error::NoProgress);
            },
            Ok(k) => k,
        };
        proof {
            // the walk cannot be done at step zero on a start node
            assert(k >= 1) by {
                assert(walk8(mm, mi, start, 0, true, (17577 * mi.len() + 1) as nat) == Some(
                    k as int,
                ));
            }
        }
        let ghost st0 = steps_taken@;
        steps_taken.push(k);
        proof {
            assert(steps_taken@.map_values(|x: i64| x as int) =~= st0.map_values(
                |x: i64| x as int,
            ).push(k as int));
            match steps_model(sm.skip(i + 1), mm, mi) {
                Some(rest) => {
                    assert(steps_model(sm.skip(i as int), mm, mi) == Some(seq![k as int] + rest));
                    assert(st0.map_values(|x: i64| x as int) + (seq![k as int] + rest)
                        =~= steps_taken@.map_values(|x: i64| x as int) + rest);
                },
                None => {},
            }
        }
        i = i + 1;
    }
    proof {
        assert(sm.skip(ns as int) =~= Seq::<u32>::empty());
        assert(steps_taken@.map_values(|x: i64| x as int) + Seq::<int>::empty()
            =~= steps_taken@.map_values(|x: i64| x as int));
    }
    let ghost ks = steps_taken@.map_values(|x: i64| x as int);
    let mut acc: i64 = 1;
    let nk = steps_taken.len();
    let mut t: usize = 0;
    proof {
        assert(ks.take(0) =~= Seq::<int>::empty());
    }
    while t < nk
        invariant
            t <= nk,
            nk == steps_taken@.len(),
            ks == steps_taken@.map_values(|x: i64| x as int),
            forall|q: int| 0 <= q < steps_taken@.len() ==> #[trigger] steps_taken@[q] >= 1,
            steps_model(sm, mm, mi) == Some(ks),
            exists|big: int| 1 <= big <= i64::MAX && #[trigger] is_cm(ks, big),
            acc >= 1,
            forall|v: int| v >= 0 ==> (#[trigger] (v % acc as int) == 0 <==> is_cm(
                ks.take(t as int),
                v,
            )),
        decreases nk - t,
    {
        let ghost acc0 = acc as int;
        let s = steps_taken[t];
        proof {
            assert(ks[t as int] == s as int);
            let big = choose|big: int| 1 <= big <= i64::MAX && #[trigger] is_cm(ks, big);
            assert(big % (s as int) == 0);
            assert(is_cm(ks.take(t as int), big)) by {
                assert forall|q: int| 0 <= q < t implies big % #[trigger] ks.take(t as int)[q]
                    == 0 by {
                    assert(ks.take(t as int)[q] == ks[q]);
                }
            }
            assert(big % acc0 == 0);
        }
        let next = lcm_i64(acc, s);
        proof {
            let big0 = choose|big: int| 1 <= big <= i64::MAX && #[trigger] is_cm(ks, big);
            assert forall|v: int| v >= 0 implies (#[trigger] (v % next as int) == 0 <==> is_cm(
                ks.take(t + 1),
                v,
            )) by {
                assert(ks.take(t + 1).drop_last() =~= ks.take(t as int));
                assert(ks.take(t + 1).last() == ks[t as int]);
                if v % next as int == 0 {
                    lemma_divides_trans(v, next as int, acc0);
                    lemma_divides_trans(v, next as int, s as int);
                    assert forall|q: int| 0 <= q < t + 1 implies v % #[trigger] ks.take(t + 1)[q]
                        == 0 by {
                        if q < t {
                            assert(ks.take(t as int)[q] == ks.take(t + 1)[q]);
                            assert(is_cm(ks.take(t as int), v));
                        }
                    }
                }
                if is_cm(ks.take(t + 1), v) {
                    assert(v % (ks.take(t + 1)[t as int]) == 0);
                    assert(is_cm(ks.take(t as int), v)) by {
                        assert forall|q: int| 0 <= q < t implies v % #[trigger] ks.take(
                            t as int,
                        )[q] == 0 by {
                            assert(ks.take(t as int)[q] == ks.take(t + 1)[q]);
                        }
                    }
                    assert(v % acc0 == 0);
                    lemma_pair_divides(acc0, s as int, next as int, v);
                }
            }
        }
        acc = next;
        t = t + 1;
    }
    proof {
        assert(ks.take(nk as int) =~= ks);
        assert(is_cm(ks, acc as int)) by {
            assert(acc as int % acc as int == 0) by {
                vstd::arithmetic::div_mod::lemma_mod_self_0(acc as int);
            }
        }
        assert forall|v: int| 1 <= v < acc implies !is_cm(ks, v) by {
            if is_cm(ks, v) {
                assert(v % acc as int == 0);
                vstd::arithmetic::div_mod::lemma_small_mod(v as nat, acc as nat);
            }
        }
    }
    Ok(acc)
}

/// Every ghost start node the parse gathers ends in `A`.
proof fn lemma_starts_end_a(ls: Seq<Seq<u8>>, i: int)
    requires
        0 <= i <= ls.len(),
    ensures
        forall|q: int|
            0 <= q < starts_model(ls, i).len() ==> #[trigger] starts_model(ls, i)[q] % 26 == 0,
    decreases ls.len() - i,
{
    if i < ls.len() {
        lemma_starts_end_a(ls, i + 1);
        match node_line(ls[i]) {
            Some((n, l, r)) => {
                if n % 26 == 0 {
                    assert forall|q: int|
                        0 <= q < starts_model(ls, i).len() implies #[trigger] starts_model(
                        ls,
                        i,
                    )[q] % 26 == 0 by {
                        if q > 0 {
                            assert(starts_model(ls, i)[q] == starts_model(ls, i + 1)[q - 1]);
                        }
                    }
                }
            },
            None => {},
        }
    }
}

} // verus!
