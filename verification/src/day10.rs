//! Pipe maze: walk the closed loop of pipes from the start tile, take the
//! farthest distance along it, and count the ground tiles it encloses.

use vstd::prelude::*;
use crate::Error;
use crate::text::{lines_of, split_lines, deep};

verus! {

/// The shape of one pipe tile.
#[derive(Clone, Copy, Debug, PartialEq, Eq, Structural)]
pub enum PipeShape {
    Vertical,
    Horizontal,
    Bend { goes_up: bool, goes_right: bool },
}

/// A grid position: row `x`, column `y`.
#[derive(Clone, Copy, PartialEq, Eq, Debug, Hash, Structural)]
pub struct Position {
    pub x: usize,
    pub y: usize,
}

/// A pipe tile with its position.
#[derive(Clone, Copy, Debug)]
pub struct Pipe {
    pub position: Position,
    pub shape: PipeShape,
}

/// One tile of the grid.
#[derive(Clone, Copy, Debug)]
pub enum Tile {
    Pipe { position: Position, shape: PipeShape },
    Ground { position: Position },
    Start { position: Position },
}

/// The position a tile carries.
pub open spec fn spec_position(t: Tile) -> Position {
    match t {
        Tile::Pipe { position, .. } => position,
        Tile::Ground { position } => position,
        Tile::Start { position } => position,
    }
}

impl Tile {
    /// The position a tile carries.
    pub fn position(&self) -> (r: Position)
        ensures
            r == spec_position(*self),
    {
        match self {
            Tile::Pipe { position, .. } => *position,
            Tile::Ground { position } => *position,
            Tile::Start { position } => *position,
        }
    }
}

/// True of the bytes that denote a tile.
pub open spec fn valid_tile_char(c: u8) -> bool {
    c == ('.' as u8) || c == ('S' as u8) || c == ('-' as u8) || c == ('|' as u8) || c == (
    '7' as u8) || c == ('F' as u8) || c == ('J' as u8) || c == ('L' as u8)
}

/// The tile a byte denotes at a position.
pub open spec fn tile_of(position: Position, c: u8) -> Tile {
    if c == ('.' as u8) {
        Tile::Ground { position }
    } else if c == ('S' as u8) {
        Tile::Start { position }
    } else if c == ('-' as u8) {
        Tile::Pipe { position, shape: PipeShape::Horizontal }
    } else if c == ('|' as u8) {
        Tile::Pipe { position, shape: PipeShape::Vertical }
    } else if c == ('7' as u8) {
        Tile::Pipe { position, shape: PipeShape::Bend { goes_up: false, goes_right: false } }
    } else if c == ('F' as u8) {
        Tile::Pipe { position, shape: PipeShape::Bend { goes_up: false, goes_right: true } }
    } else if c == ('J' as u8) {
        Tile::Pipe { position, shape: PipeShape::Bend { goes_up: true, goes_right: false } }
    } else {
        Tile::Pipe { position, shape: PipeShape::Bend { goes_up: true, goes_right: true } }
    }
}

impl Tile {
    /// The tile a byte denotes; bytes that denote none are rejected.
    pub fn from_char_and_position(position: Position, c: u8) -> (r: Tile)
        requires
            valid_tile_char(c),
        ensures
            r == tile_of(position, c),
    {
        if c == ('.' as u8) {
            Tile::Ground { position }
        } else if c == ('S' as u8) {
            Tile::Start { position }
        } else if c == ('-' as u8) {
            Tile::Pipe { position, shape: PipeShape::Horizontal }
        } else if c == ('|' as u8) {
            Tile::Pipe { position, shape: PipeShape::Vertical }
        } else if c == ('7' as u8) {
            Tile::Pipe { position, shape: PipeShape::Bend { goes_up: false, goes_right: false } }
        } else if c == ('F' as u8) {
            Tile::Pipe { position, shape: PipeShape::Bend { goes_up: false, goes_right: true } }
        } else if c == ('J' as u8) {
            Tile::Pipe { position, shape: PipeShape::Bend { goes_up: true, goes_right: false } }
        } else {
            Tile::Pipe { position, shape: PipeShape::Bend { goes_up: true, goes_right: true } }
        }
    }
}

/// The two grid neighbours a pipe shape connects, as row and column
/// offsets of one: first the vertical or first-listed one, then the other.
pub open spec fn spec_neighbours(x: int, y: int, shape: PipeShape) -> ((int, int), (int, int)) {
    match shape {
        PipeShape::Horizontal => ((x, y - 1), (x, y + 1)),
        PipeShape::Vertical => ((x - 1, y), (x + 1, y)),
        PipeShape::Bend { goes_up, goes_right } => {
            let h = if goes_right {
                (x, y + 1)
            } else {
                (x, y - 1)
            };
            let v = if goes_up {
                (x - 1, y)
            } else {
                (x + 1, y)
            };
            (v, h)
        },
    }
}

impl Pipe {
    /// The two positions this pipe connects.
    ///
    /// A pipe pointing over the grid edge has no neighbour there, so such
    /// positions are excluded.
    pub fn neighbours(&self) -> (r: (Position, Position))
        requires
            match self.shape {
                PipeShape::Horizontal => self.position.y >= 1 && self.position.y + 1
                    <= usize::MAX,
                PipeShape::Vertical => self.position.x >= 1 && self.position.x + 1 <= usize::MAX,
                PipeShape::Bend { goes_up, goes_right } => (if goes_right {
                    self.position.y + 1 <= usize::MAX
                } else {
                    self.position.y >= 1
                }) && (if goes_up {
                    self.position.x >= 1
                } else {
                    self.position.x + 1 <= usize::MAX
                }),
            },
        ensures
            ({
                let (n1, n2) = spec_neighbours(
                    self.position.x as int,
                    self.position.y as int,
                    self.shape,
                );
                r.0.x == n1.0 && r.0.y == n1.1 && r.1.x == n2.0 && r.1.y == n2.1
            }),
    {
        let x = self.position.x;
        let y = self.position.y;
        match self.shape {
            PipeShape::Horizontal => (Position { x, y: y - 1 }, Position { x, y: y + 1 }),
            PipeShape::Vertical => (Position { x: x - 1, y }, Position { x: x + 1, y }),
            PipeShape::Bend { goes_up, goes_right } => {
                let horizontal_neighbour = if goes_right {
                    Position { x, y: y + 1 }
                } else {
                    Position { x, y: y - 1 }
                };
                let vertical_neighbour = if goes_up {
                    Position { x: x - 1, y }
                } else {
                    Position { x: x + 1, y }
                };
                (vertical_neighbour, horizontal_neighbour)
            },
        }
    }
}

/// Whether `(x, y)` lies on the grid.
pub open spec fn on_grid(g: Seq<Seq<u8>>, x: int, y: int) -> bool {
    0 <= x < g.len() && 0 <= y < g[x].len()
}

/// The byte at `(x, y)`.
pub open spec fn grid_at(g: Seq<Seq<u8>>, x: int, y: int) -> u8 {
    g[x][y]
}

/// The column of the last start byte of a row, if any.
pub open spec fn last_s_in_row(row: Seq<u8>) -> Option<int>
    decreases row.len(),
{
    if row.len() == 0 {
        None
    } else if row.last() == ('S' as u8) {
        Some(row.len() - 1)
    } else {
        last_s_in_row(row.drop_last())
    }
}

/// The position of the last start byte of the grid in row order, if any.
pub open spec fn find_start(g: Seq<Seq<u8>>) -> Option<(int, int)>
    decreases g.len(),
{
    if g.len() == 0 {
        None
    } else {
        match last_s_in_row(g.last()) {
            Some(y) => Some((g.len() - 1, y)),
            None => find_start(g.drop_last()),
        }
    }
}

proof fn lemma_last_s_in_row(row: Seq<u8>)
    ensures
        match last_s_in_row(row) {
            Some(y) => 0 <= y < row.len() && row[y] == ('S' as u8),
            None => forall|y: int| 0 <= y < row.len() ==> row[y] != ('S' as u8),
        },
    decreases row.len(),
{
    if row.len() > 0 && row.last() != ('S' as u8) {
        lemma_last_s_in_row(row.drop_last());
        match last_s_in_row(row.drop_last()) {
            Some(y) => {
                assert(row.drop_last()[y] == row[y]);
            },
            None => {
                assert forall|y: int| 0 <= y < row.len() implies row[y] != ('S' as u8) by {
                    if y < row.len() - 1 {
                        assert(row.drop_last()[y] == row[y]);
                    }
                }
            },
        }
    }
}

pub proof fn lemma_find_start(g: Seq<Seq<u8>>)
    ensures
        match find_start(g) {
            Some((x, y)) => on_grid(g, x, y) && grid_at(g, x, y) == ('S' as u8),
            None => true,
        },
    decreases g.len(),
{
    if g.len() > 0 {
        lemma_last_s_in_row(g.last());
        match last_s_in_row(g.last()) {
            Some(y) => {},
            None => {
                lemma_find_start(g.drop_last());
                match find_start(g.drop_last()) {
                    Some((x, y)) => {
                        assert(g.drop_last()[x] == g[x]);
                    },
                    None => {},
                }
            },
        }
    }
}

/// Finds the start tile: the last `S` of the text in reading order.
#[verifier::loop_isolation(false)]
pub fn locate_start(lines: &Vec<Vec<u8>>) -> (r: Option<Position>)
    ensures
        match r {
            Some(p) => find_start(deep(lines@)) == Some((p.x as int, p.y as int)),
            None => find_start(deep(lines@)) is None,
        },
{
    let ghost g = deep(lines@);
    let mut found: Option<Position> = None;
    let n = lines.len();
    let mut x: usize = 0;
    proof {
        assert(g.take(0) =~= Seq::<Seq<u8>>::empty());
    }
    while x < n
        invariant
            x <= n,
            match found {
                Some(p) => find_start(g.take(x as int)) == Some((p.x as int, p.y as int)),
                None => find_start(g.take(x as int)) is None,
            },
        decreases n - x,
    {
        let row = &lines[x];
        let m = row.len();
        let mut y: usize = 0;
        let mut row_s: Option<usize> = None;
        proof {
            assert(g[x as int] =~= row@);
            assert(row@.take(0) =~= Seq::<u8>::empty());
        }
        while y < m
            invariant
                y <= m,
                m == row@.len(),
                match row_s {
                    Some(c) => last_s_in_row(row@.take(y as int)) == Some(c as int) && c < m,
                    None => last_s_in_row(row@.take(y as int)) is None,
                },
            decreases m - y,
        {
            proof {
                assert(row@.take(y + 1).last() == row@[y as int]);
                assert(row@.take(y + 1).drop_last() =~= row@.take(y as int));
            }
            if row[y] == ('S' as u8) {
                row_s = Some(y);
            }
            y = y + 1;
        }
        proof {
            assert(row@.take(m as int) =~= row@);
            assert(g.take(x + 1).last() == g[x as int]);
            assert(g.take(x + 1).drop_last() =~= g.take(x as int));
        }
        match row_s {
            Some(c) => {
                found = Some(Position { x, y: c });
            },
            None => {},
        }
        x = x + 1;
    }
    proof {
        assert(g.take(n as int) =~= g);
    }
    found
}

/// True of the bytes that denote a pipe.
pub open spec fn is_pipe_char(c: u8) -> bool {
    c == ('-' as u8) || c == ('|' as u8) || c == ('7' as u8) || c == ('F' as u8) || c == (
    'J' as u8) || c == ('L' as u8)
}

/// The shape a pipe byte denotes.
pub open spec fn shape_of(c: u8) -> PipeShape {
    if c == ('-' as u8) {
        PipeShape::Horizontal
    } else if c == ('|' as u8) {
        PipeShape::Vertical
    } else if c == ('7' as u8) {
        PipeShape::Bend { goes_up: false, goes_right: false }
    } else if c == ('F' as u8) {
        PipeShape::Bend { goes_up: false, goes_right: true }
    } else if c == ('J' as u8) {
        PipeShape::Bend { goes_up: true, goes_right: false }
    } else {
        PipeShape::Bend { goes_up: true, goes_right: true }
    }
}

/// Whether `(x, y)` holds a pipe byte of the grid.
pub open spec fn pipe_at(g: Seq<Seq<u8>>, x: int, y: int) -> bool {
    on_grid(g, x, y) && is_pipe_char(grid_at(g, x, y))
}

/// The two pipe neighbours of the start tile, probed rightwards, down,
/// leftwards and up, in that order; `None` unless exactly two exist.
pub open spec fn start_neighbours(g: Seq<Seq<u8>>, sx: int, sy: int) -> Option<
    ((int, int), (int, int)),
> {
    let b1 = pipe_at(g, sx, sy + 1);
    let b2 = pipe_at(g, sx + 1, sy);
    let b3 = pipe_at(g, sx, sy - 1);
    let b4 = pipe_at(g, sx - 1, sy);
    let count = (if b1 {
        1int
    } else {
        0int
    }) + (if b2 {
        1int
    } else {
        0int
    }) + (if b3 {
        1int
    } else {
        0int
    }) + (if b4 {
        1int
    } else {
        0int
    });
    if count != 2 {
        None
    } else {
        let first = if b1 {
            (sx, sy + 1)
        } else if b2 {
            (sx + 1, sy)
        } else {
            (sx, sy - 1)
        };
        let second = if b1 {
            if b2 {
                (sx + 1, sy)
            } else if b3 {
                (sx, sy - 1)
            } else {
                (sx - 1, sy)
            }
        } else if b2 {
            if b3 {
                (sx, sy - 1)
            } else {
                (sx - 1, sy)
            }
        } else {
            (sx - 1, sy)
        };
        Some((first, second))
    }
}

/// The neighbour of a pipe that is not the one just come from.
pub open spec fn pipe_next(x: int, y: int, shape: PipeShape, px: int, py: int) -> (int, int) {
    let (n1, n2) = spec_neighbours(x, y, shape);
    if n1 == (px, py) {
        n2
    } else {
        n1
    }
}

/// Walks the loop from tile `(x, y)`, having just left `(px, py)`, with
/// `count` tiles seen so far: the tile count when the walk closes at the
/// start, or `None` when it leaves the grid, meets ground or a bad byte,
/// or does not close within `fuel` steps.
pub open spec fn walk(
    g: Seq<Seq<u8>>,
    px: int,
    py: int,
    x: int,
    y: int,
    count: int,
    fuel: nat,
) -> Option<int>
    decreases fuel,
{
    if !on_grid(g, x, y) || !valid_tile_char(grid_at(g, x, y)) {
        None
    } else if grid_at(g, x, y) == ('S' as u8) {
        Some(count)
    } else if grid_at(g, x, y) == ('.' as u8) {
        None
    } else if fuel == 0 {
        None
    } else {
        let (n1, n2) = spec_neighbours(x, y, shape_of(grid_at(g, x, y)));
        if n1.0 < 0 || n1.1 < 0 || n2.0 < 0 || n2.1 < 0 {
            None
        } else {
            let nxt = pipe_next(x, y, shape_of(grid_at(g, x, y)), px, py);
            walk(g, x, y, nxt.0, nxt.1, count + 1, (fuel - 1) as nat)
        }
    }
}

/// The loop positions the walk passes, the start excluded.
pub open spec fn walk_positions(
    g: Seq<Seq<u8>>,
    px: int,
    py: int,
    x: int,
    y: int,
    fuel: nat,
) -> Option<Seq<(int, int)>>
    decreases fuel,
{
    if !on_grid(g, x, y) || !valid_tile_char(grid_at(g, x, y)) {
        None
    } else if grid_at(g, x, y) == ('S' as u8) {
        Some(Seq::empty())
    } else if grid_at(g, x, y) == ('.' as u8) {
        None
    } else if fuel == 0 {
        None
    } else {
        let (n1, n2) = spec_neighbours(x, y, shape_of(grid_at(g, x, y)));
        if n1.0 < 0 || n1.1 < 0 || n2.0 < 0 || n2.1 < 0 {
            None
        } else {
            let nxt = pipe_next(x, y, shape_of(grid_at(g, x, y)), px, py);
            match walk_positions(g, x, y, nxt.0, nxt.1, (fuel - 1) as nat) {
                None => None,
                Some(rest) => Some(seq![(x, y)] + rest),
            }
        }
    }
}

/// The distance to the farthest loop tile: half the loop length, reached
/// by walking the loop from the start; `None` when the text has no start,
/// the start does not have exactly two pipe neighbours, the walk fails,
/// or the loop length is odd.
pub open spec fn part1_answer(s: Seq<u8>) -> Option<int> {
    let g = split_lines(s);
    match find_start(g) {
        None => None,
        Some((sx, sy)) => match start_neighbours(g, sx, sy) {
            None => None,
            Some((n1, n2)) => match walk(g, sx, sy, n1.0, n1.1, 1, (s.len() + 2) as nat) {
                None => None,
                Some(v) => if v % 2 == 0 {
                    Some(v / 2)
                } else {
                    None
                },
            },
        },
    }
}

/// Probes one candidate start neighbour.
fn probe(lines: &Vec<Vec<u8>>, x: usize, y: usize) -> (r: bool)
    ensures
        r == pipe_at(deep(lines@), x as int, y as int),
{
    if x < lines.len() && y < lines[x].len() {
        let c = lines[x][y];
        proof {
            assert(grid_at(deep(lines@), x as int, y as int) == c);
        }
        c == ('-' as u8) || c == ('|' as u8) || c == ('7' as u8) || c == ('F' as u8) || c == (
        'J' as u8) || c == ('L' as u8)
    } else {
        false
    }
}

/// Finds the two pipe neighbours of the start tile.
#[verifier::loop_isolation(false)]
pub fn find_a_pipe_neighbours_for_start(lines: &Vec<Vec<u8>>, start: Position) -> (r: Option<
    (Position, Position),
>)
    requires
        start.x + 1 <= usize::MAX,
        start.y + 1 <= usize::MAX,
    ensures
        match r {
            Some((p1, p2)) => start_neighbours(deep(lines@), start.x as int, start.y as int)
                == Some(((p1.x as int, p1.y as int), (p2.x as int, p2.y as int))),
            None => start_neighbours(deep(lines@), start.x as int, start.y as int) is None,
        },
{
    let ghost g = deep(lines@);
    let b1 = probe(lines, start.x, start.y + 1);
    let b2 = probe(lines, start.x + 1, start.y);
    let b3 = if start.y >= 1 {
        probe(lines, start.x, start.y - 1)
    } else {
        proof {
            assert(!pipe_at(g, start.x as int, start.y - 1));
        }
        false
    };
    let b4 = if start.x >= 1 {
        probe(lines, start.x - 1, start.y)
    } else {
        proof {
            assert(!pipe_at(g, start.x - 1, start.y as int));
        }
        false
    };
    let count: u32 = (if b1 {
        1u32
    } else {
        0u32
    }) + (if b2 {
        1u32
    } else {
        0u32
    }) + (if b3 {
        1u32
    } else {
        0u32
    }) + (if b4 {
        1u32
    } else {
        0u32
    });
    if count != 2 {
        return None;
    }
    let first = if b1 {
        Position { x: start.x, y: start.y + 1 }
    } else if b2 {
        Position { x: start.x + 1, y: start.y }
    } else {
        Position { x: start.x, y: start.y - 1 }
    };
    let second = if b1 {
        if b2 {
            Position { x: start.x + 1, y: start.y }
        } else if b3 {
            Position { x: start.x, y: start.y - 1 }
        } else {
            Position { x: start.x - 1, y: start.y }
        }
    } else if b2 {
        if b3 {
            Position { x: start.x, y: start.y - 1 }
        } else {
            Position { x: start.x - 1, y: start.y }
        }
    } else {
        Position { x: start.x - 1, y: start.y }
    };
    Some((first, second))
}

/// The distance to the farthest tile of the pipe loop from its start.
///
/// Fails exactly when the text has no start tile, the start does not have
/// exactly two pipe neighbours, the walk runs off the loop, or the loop
/// length comes out odd.
#[verifier::loop_isolation(false)]
pub fn part1(input: &[u8]) -> (r: Result<i64, Error>)
    requires
        input@.len() <= i64::MAX,
    ensures
        match r {
            Ok(d) => part1_answer(input@) == Some(d as int),
            Err(e) => (e == Error::BadInput || e == Error::NoProgress) && part1_answer(
                input@,
            ) is None,
        },
{
    let ghost g = split_lines(input@);
    let lines = lines_of(input);
    let start = match locate_start(&lines) {
        None => {
            return Err(Error::BadInput);
        },
        Some(p) => p,
    };
    proof {
        lemma_find_start(g);
        assert(deep(lines@).len() == lines@.len());
        assert(on_grid(g, start.x as int, start.y as int));
        assert(start.x < lines@.len());
    }
    let start_row_len = lines[start.x].len();
    proof {
        assert(start.y < start_row_len);
    }
    let (n1, _n2) = match find_a_pipe_neighbours_for_start(&lines, start) {
        None => {
            return Err(Error::BadInput);
        },
        Some(x) => x,
    };
    let ghost fuel0 = (input@.len() + 2) as nat;
    let mut fuel: u64 = input.len() as u64 + 2;
    let mut px = start.x;
    let mut py = start.y;
    let mut x = n1.x;
    let mut y = n1.y;
    let mut count: u64 = 1;
    loop
        invariant
            fuel <= input@.len() + 2,
            1 <= count <= input@.len() + 3 - fuel,
            walk(g, start.x as int, start.y as int, n1.x as int, n1.y as int, 1, fuel0) == walk(
                g,
                px as int,
                py as int,
                x as int,
                y as int,
                count as int,
                fuel as nat,
            ),
        decreases fuel,
    {
        if !(x < lines.len() && y < lines[x].len()) {
            return Err(Error::BadInput);
        }
        let c = lines[x][y];
        proof {
            assert(grid_at(g, x as int, y as int) == c);
        }
        if c == ('S' as u8) {
            let visited = count;
            if visited % 2 == 0 {
                return Ok((visited / 2) as i64);
            } else {
                return Err(Error::BadInput);
            }
        }
        if c == ('.' as u8) {
            return Err(Error::BadInput);
        }
        if !(c == ('-' as u8) || c == ('|' as u8) || c == ('7' as u8) || c == ('F' as u8) || c
            == ('J' as u8) || c == ('L' as u8)) {
            return Err(Error::BadInput);
        }
        if fuel == 0 {
            return Err(Error::NoProgress);
        }
        let shape = shape_from_char(c);
        let needs_left = match shape {
            PipeShape::Horizontal => true,
            PipeShape::Bend { goes_right, .. } => !goes_right,
            PipeShape::Vertical => false,
        };
        let needs_up = match shape {
            PipeShape::Vertical => true,
            PipeShape::Bend { goes_up, .. } => goes_up,
            PipeShape::Horizontal => false,
        };
        if (needs_left && y == 0) || (needs_up && x == 0) {
            return Err(Error::BadInput);
        }
        let pipe = Pipe { position: Position { x, y }, shape };
        let (q1, q2) = pipe.neighbours();
        let nxt = if q1.x == px && q1.y == py {
            q2
        } else {
            q1
        };
        px = x;
        py = y;
        x = nxt.x;
        y = nxt.y;
        count = count + 1;
        fuel = fuel - 1;
    }
}

/// Builds the shape a pipe byte denotes.
pub fn shape_from_char(c: u8) -> (r: PipeShape)
    requires
        is_pipe_char(c),
    ensures
        r == shape_of(c),
{
    if c == ('-' as u8) {
        PipeShape::Horizontal
    } else if c == ('|' as u8) {
        PipeShape::Vertical
    } else if c == ('7' as u8) {
        PipeShape::Bend { goes_up: false, goes_right: false }
    } else if c == ('F' as u8) {
        PipeShape::Bend { goes_up: false, goes_right: true }
    } else if c == ('J' as u8) {
        PipeShape::Bend { goes_up: true, goes_right: false }
    } else {
        PipeShape::Bend { goes_up: true, goes_right: true }
    }
}

/// The shape the start tile must have, read off its two loop neighbours:
/// two rows apart means a vertical pipe, two columns apart a horizontal
/// one, and anything else the bend that reaches both.
pub open spec fn start_shape_of(sx: int, sy: int, x1: int, y1: int, x2: int, y2: int) -> PipeShape {
    if x1 - x2 == 2 || x2 - x1 == 2 {
        PipeShape::Vertical
    } else if y1 - y2 == 2 || y2 - y1 == 2 {
        PipeShape::Horizontal
    } else {
        PipeShape::Bend { goes_up: x1 < sx || x2 < sx, goes_right: y1 > sy || y2 > sy }
    }
}

/// Whether a pipe shape connects to the row above: the ray-casting scan
/// counts one loop crossing for each such tile.
pub open spec fn up_connecting(sh: PipeShape) -> bool {
    match sh {
        PipeShape::Vertical => true,
        PipeShape::Bend { goes_up, .. } => goes_up,
        PipeShape::Horizontal => false,
    }
}

/// The positions of a list of tiles.
pub open spec fn pos_ints(v: Seq<Position>) -> Seq<(int, int)> {
    v.map_values(|p: Position| (p.x as int, p.y as int))
}

/// The ground tiles of row `x` from column `y` on that lie inside the
/// loop: a cell is inside when an odd number of up-connecting loop tiles
/// stands left of it.  `None` on a bad byte, or on a start tile that the
/// loop replacement left behind.
pub open spec fn row_inner(
    row: Seq<u8>,
    x: int,
    y: int,
    odd: bool,
    lp: Seq<(int, int)>,
    sp: (int, int),
    ss: PipeShape,
) -> Option<int>
    decreases row.len() - y
        when 0 <= y
{
    if y >= row.len() {
        Some(0)
    } else {
        let c = row[y];
        if !valid_tile_char(c) {
            None
        } else if lp.contains((x, y)) {
            let sh = if (x, y) == sp {
                ss
            } else {
                shape_of(c)
            };
            row_inner(row, x, y + 1, if up_connecting(sh) {
                !odd
            } else {
                odd
            }, lp, sp, ss)
        } else if c == ('S' as u8) {
            None
        } else {
            match row_inner(row, x, y + 1, odd, lp, sp, ss) {
                None => None,
                Some(rest) => Some(
                    (if c == ('.' as u8) && odd {
                        1int
                    } else {
                        0int
                    }) + rest,
                ),
            }
        }
    }
}

proof fn lemma_row_inner_bound(
    row: Seq<u8>,
    x: int,
    y: int,
    odd: bool,
    lp: Seq<(int, int)>,
    sp: (int, int),
    ss: PipeShape,
)
    requires
        0 <= y <= row.len(),
    ensures
        match row_inner(row, x, y, odd, lp, sp, ss) {
            Some(k) => 0 <= k <= row.len() - y,
            None => true,
        },
    decreases row.len() - y,
{
    if y < row.len() {
        let c = row[y];
        if valid_tile_char(c) {
            if lp.contains((x, y)) {
                let sh = if (x, y) == sp {
                    ss
                } else {
                    shape_of(c)
                };
                lemma_row_inner_bound(row, x, y + 1, if up_connecting(sh) {
                    !odd
                } else {
                    odd
                }, lp, sp, ss);
            } else if c != ('S' as u8) {
                lemma_row_inner_bound(row, x, y + 1, odd, lp, sp, ss);
            }
        }
    }
}

/// The enclosed ground tiles of rows `x` and below.
pub open spec fn grid_inner(
    g: Seq<Seq<u8>>,
    x: int,
    lp: Seq<(int, int)>,
    sp: (int, int),
    ss: PipeShape,
) -> Option<int>
    decreases g.len() - x
        when 0 <= x
{
    if x >= g.len() {
        Some(0)
    } else {
        match (row_inner(g[x], x, 0, false, lp, sp, ss), grid_inner(g, x + 1, lp, sp, ss)) {
            (Some(k), Some(rest)) => Some(k + rest),
            _ => None,
        }
    }
}

/// The sum of the row lengths of rows `x` and below.
pub open spec fn grid_cells(g: Seq<Seq<u8>>, x: int) -> int
    decreases g.len() - x
        when 0 <= x
{
    if x >= g.len() {
        0
    } else {
        g[x].len() + grid_cells(g, x + 1)
    }
}

proof fn lemma_grid_inner_bound(
    g: Seq<Seq<u8>>,
    x: int,
    lp: Seq<(int, int)>,
    sp: (int, int),
    ss: PipeShape,
)
    requires
        0 <= x,
    ensures
        match grid_inner(g, x, lp, sp, ss) {
            Some(k) => 0 <= k <= grid_cells(g, x),
            None => true,
        },
        grid_cells(g, x) >= 0,
    decreases g.len() - x,
{
    if x < g.len() {
        lemma_row_inner_bound(g[x], x, 0, false, lp, sp, ss);
        lemma_grid_inner_bound(g, x + 1, lp, sp, ss);
    }
}

/// The split lines of a text hold no more bytes than the text.
proof fn lemma_grid_cells_bound(s: Seq<u8>)
    ensures
        grid_cells(split_lines(s), 0) <= s.len(),
        grid_cells(split_lines(s), 0) >= 0,
    decreases s.len(),
{
    lemma_grid_cells_nonneg(split_lines(s), 0);
    if s.len() > 0 {
        crate::text::lemma_line_break(s, 0);
        let g = split_lines(s);
        let e = crate::text::line_break(s, 0);
        let rest = if e < s.len() {
            split_lines(s.skip(e + 1))
        } else {
            Seq::<Seq<u8>>::empty()
        };
        assert(g == seq![crate::text::strip_cr(s.take(e))] + rest);
        assert(g[0] == crate::text::strip_cr(s.take(e)));
        assert(g[0].len() <= e);
        lemma_grid_cells_step(g, 1);
        assert(g.skip(1) =~= rest);
        if e < s.len() {
            lemma_grid_cells_bound(s.skip(e + 1));
        }
    }
}

/// Cell counting commutes with dropping the first row.
proof fn lemma_grid_cells_step(g: Seq<Seq<u8>>, k: int)
    requires
        1 <= k,
        1 <= g.len(),
    ensures
        grid_cells(g, k) == grid_cells(g.skip(1), k - 1),
    decreases g.len() - k,
{
    if k < g.len() {
        lemma_grid_cells_step(g, k + 1);
        assert(g.skip(1)[k - 1] == g[k]);
    }
}

proof fn lemma_grid_cells_nonneg(g: Seq<Seq<u8>>, x: int)
    requires
        0 <= x,
    ensures
        grid_cells(g, x) >= 0,
    decreases g.len() - x,
{
    if x < g.len() {
        lemma_grid_cells_nonneg(g, x + 1);
    }
}

/// The enclosed ground tiles of the whole grid: the loop is walked to
/// gather its tiles, the start is read as the bend its neighbours force,
/// and each row is scanned with the crossing rule; `None` when the text
/// has no start, the start lacks two pipe neighbours, the walk fails, or
/// a row holds a bad byte or stray start.
pub open spec fn part2_answer(s: Seq<u8>) -> Option<int> {
    let g = split_lines(s);
    match find_start(g) {
        None => None,
        Some((sx, sy)) => match start_neighbours(g, sx, sy) {
            None => None,
            Some((n1, n2)) => match walk_positions(g, sx, sy, n1.0, n1.1, (s.len() + 2) as nat) {
                None => None,
                Some(ps) => {
                    let lp = seq![(sx, sy)] + ps;
                    let ss = start_shape_of(sx, sy, n1.0, n1.1, n2.0, n2.1);
                    grid_inner(g, 0, lp, (sx, sy), ss)
                },
            },
        },
    }
}

/// Whether the walked loop holds the position `(x, y)`.
fn on_loop(lp: &Vec<Position>, x: usize, y: usize) -> (r: bool)
    ensures
        r == pos_ints(lp@).contains((x as int, y as int)),
{
    let ghost ps = pos_ints(lp@);
    let n = lp.len();
    let mut i: usize = 0;
    while i < n
        invariant
            n == lp@.len(),
            ps == pos_ints(lp@),
            i <= n,
            forall|j: int| 0 <= j < i ==> #[trigger] ps[j] != (x as int, y as int),
        decreases n - i,
    {
        let p = lp[i];
        if p.x == x && p.y == y {
            proof {
                assert(ps[i as int] == (x as int, y as int));
            }
            return true;
        }
        proof {
            assert(ps[i as int] == (lp@[i as int].x as int, lp@[i as int].y as int));
        }
        i = i + 1;
    }
    proof {
        if ps.contains((x as int, y as int)) {
            let j = choose|j: int| 0 <= j < ps.len() && ps[j] == (x as int, y as int);
            assert(false);
        }
    }
    false
}

/// Counts the ground tiles of one row that the loop encloses.
#[verifier::loop_isolation(false)]
pub fn count_inner_tiles(
    row_nr: usize,
    line: &[u8],
    loop_tiles: &Vec<Position>,
    start: Position,
    start_shape: PipeShape,
) -> (r: Option<i64>)
    requires
        line@.len() <= i64::MAX,
    ensures
        match r {
            Some(k) => row_inner(
                line@,
                row_nr as int,
                0,
                false,
                pos_ints(loop_tiles@),
                (start.x as int, start.y as int),
                start_shape,
            ) == Some(k as int),
            None => row_inner(
                line@,
                row_nr as int,
                0,
                false,
                pos_ints(loop_tiles@),
                (start.x as int, start.y as int),
                start_shape,
            ) is None,
        },
{
    let ghost lp = pos_ints(loop_tiles@);
    let ghost sp = (start.x as int, start.y as int);
    let x = row_nr;
    let mut y: usize = 0;
    let mut odd = false;
    let mut count: i64 = 0;
    proof {
        lemma_row_inner_bound(line@, x as int, 0, false, lp, sp, start_shape);
    }
    while y < line.len()
        invariant
            y <= line@.len(),
            0 <= count <= y,
            match row_inner(line@, x as int, y as int, odd, lp, sp, start_shape) {
                Some(rest) => row_inner(line@, x as int, 0, false, lp, sp, start_shape) == Some(
                    count + rest,
                ),
                None => row_inner(line@, x as int, 0, false, lp, sp, start_shape) is None,
            },
        decreases line@.len() - y,
    {
        proof {
            lemma_row_inner_bound(line@, x as int, y + 1, odd, lp, sp, start_shape);
            lemma_row_inner_bound(line@, x as int, y + 1, !odd, lp, sp, start_shape);
        }
        let c = line[y];
        if !(c == ('.' as u8) || c == ('S' as u8) || c == ('-' as u8) || c == ('|' as u8) || c
            == ('7' as u8) || c == ('F' as u8) || c == ('J' as u8) || c == ('L' as u8)) {
            return None;
        }
        if on_loop(loop_tiles, x, y) {
            let sh = if start.x == x && start.y == y {
                start_shape
            } else {
                shape_from_char_total(c)
            };
            let up = match sh {
                PipeShape::Vertical => true,
                PipeShape::Bend { goes_up, .. } => goes_up,
                PipeShape::Horizontal => false,
            };
            if up {
                odd = !odd;
            }
        } else if c == ('S' as u8) {
            return None;
        } else {
            if c == ('.' as u8) && odd {
                count = count + 1;
            }
        }
        y = y + 1;
    }
    Some(count)
}

/// The shape a byte denotes, reading any non-pipe byte as a rightward
/// upward bend, as the shape table does.
fn shape_from_char_total(c: u8) -> (r: PipeShape)
    ensures
        r == shape_of(c),
{
    if c == ('-' as u8) {
        PipeShape::Horizontal
    } else if c == ('|' as u8) {
        PipeShape::Vertical
    } else if c == ('7' as u8) {
        PipeShape::Bend { goes_up: false, goes_right: false }
    } else if c == ('F' as u8) {
        PipeShape::Bend { goes_up: false, goes_right: true }
    } else if c == ('J' as u8) {
        PipeShape::Bend { goes_up: true, goes_right: false }
    } else {
        PipeShape::Bend { goes_up: true, goes_right: true }
    }
}

/// The number of ground tiles the pipe loop encloses.
///
/// The loop is walked once to gather its tiles, the start is read as the
/// pipe its two neighbours force, and each row is scanned counting
/// crossings of up-connecting loop tiles.  Fails exactly where the loop
/// walk of the first part fails, or where a row holds a bad byte or a
/// start tile off the loop.
#[verifier::loop_isolation(false)]
pub fn part2(input: &[u8]) -> (r: Result<i64, Error>)
    requires
        input@.len() <= i64::MAX,
    ensures
        match r {
            Ok(d) => part2_answer(input@) == Some(d as int),
            Err(e) => (e == Error::BadInput || e == Error::NoProgress) && part2_answer(
                input@,
            ) is None,
        },
{
    let ghost g = split_lines(input@);
    let lines = lines_of(input);
    let start = match locate_start(&lines) {
        None => {
            return Err(Error::BadInput);
        },
        Some(p) => p,
    };
    proof {
        lemma_find_start(g);
        assert(deep(lines@).len() == lines@.len());
        assert(on_grid(g, start.x as int, start.y as int));
        assert(start.x < lines@.len());
    }
    let start_row_len = lines[start.x].len();
    let total_rows = lines.len();
    proof {
        assert(start.y < start_row_len);
        assert(start.x < total_rows);
    }
    let (n1, n2) = match find_a_pipe_neighbours_for_start(&lines, start) {
        None => {
            return Err(Error::BadInput);
        },
        Some(x) => x,
    };
    // the start tile is replaced by the shape its two neighbours force
    let start_shape = if (n1.x > n2.x && n1.x - n2.x == 2) || (n2.x > n1.x && n2.x - n1.x == 2) {
        PipeShape::Vertical
    } else if (n1.y > n2.y && n1.y - n2.y == 2) || (n2.y > n1.y && n2.y - n1.y == 2) {
        PipeShape::Horizontal
    } else {
        PipeShape::Bend {
            goes_up: n1.x < start.x || n2.x < start.x,
            goes_right: n1.y > start.y || n2.y > start.y,
        }
    };
    proof {
        assert(start_shape == start_shape_of(
            start.x as int,
            start.y as int,
            n1.x as int,
            n1.y as int,
            n2.x as int,
            n2.y as int,
        ));
    }
    // walk the loop, gathering its tiles
    let ghost fuel0 = (input@.len() + 2) as nat;
    let mut fuel: u64 = input.len() as u64 + 2;
    let mut px = start.x;
    let mut py = start.y;
    let mut x = n1.x;
    let mut y = n1.y;
    let mut loop_tiles: Vec<Position> = Vec::new();
    loop_tiles.push(start);
    proof {
        assert(pos_ints(loop_tiles@) =~= seq![(start.x as int, start.y as int)]);
        match walk_positions(g, start.x as int, start.y as int, n1.x as int, n1.y as int, fuel0) {
            Some(full) => {
                assert(seq![(start.x as int, start.y as int)] + full =~= pos_ints(loop_tiles@)
                    + full);
            },
            None => {},
        }
    }
    let ghost lp0 = seq![(start.x as int, start.y as int)];
    loop
        invariant
            fuel <= input@.len() + 2,
            loop_tiles@.len() >= 1,
            match walk_positions(g, px as int, py as int, x as int, y as int, fuel as nat) {
                Some(rest) => match walk_positions(
                    g,
                    start.x as int,
                    start.y as int,
                    n1.x as int,
                    n1.y as int,
                    fuel0,
                ) {
                    Some(full) => lp0 + full == pos_ints(loop_tiles@) + rest,
                    None => false,
                },
                None => walk_positions(
                    g,
                    start.x as int,
                    start.y as int,
                    n1.x as int,
                    n1.y as int,
                    fuel0,
                ) is None,
            },
        decreases fuel,
    {
        if !(x < lines.len() && y < lines[x].len()) {
            return Err(Error::BadInput);
        }
        let c = lines[x][y];
        proof {
            assert(grid_at(g, x as int, y as int) == c);
        }
        if c == ('S' as u8) {
            proof {
                assert(walk_positions(g, px as int, py as int, x as int, y as int, fuel as nat)
                    == Some(Seq::<(int, int)>::empty()));
                assert(pos_ints(loop_tiles@) + Seq::<(int, int)>::empty() =~= pos_ints(
                    loop_tiles@,
                ));
            }
            break ;
        }
        if c == ('.' as u8) {
            return Err(Error::BadInput);
        }
        if !(c == ('-' as u8) || c == ('|' as u8) || c == ('7' as u8) || c == ('F' as u8) || c
            == ('J' as u8) || c == ('L' as u8)) {
            return Err(Error::BadInput);
        }
        if fuel == 0 {
            return Err(Error::NoProgress);
        }
        let shape = shape_from_char(c);
        let needs_left = match shape {
            PipeShape::Horizontal => true,
            PipeShape::Bend { goes_right, .. } => !goes_right,
            PipeShape::Vertical => false,
        };
        let needs_up = match shape {
            PipeShape::Vertical => true,
            PipeShape::Bend { goes_up, .. } => goes_up,
            PipeShape::Horizontal => false,
        };
        if (needs_left && y == 0) || (needs_up && x == 0) {
            return Err(Error::BadInput);
        }
        let pipe = Pipe { position: Position { x, y }, shape };
        let (q1, q2) = pipe.neighbours();
        let nxt = if q1.x == px && q1.y == py {
            q2
        } else {
            q1
        };
        let ghost lt0 = loop_tiles@;
        loop_tiles.push(Position { x, y });
        proof {
            assert(pos_ints(loop_tiles@) =~= pos_ints(lt0).push((x as int, y as int)));
            match walk_positions(g, x as int, y as int, nxt.x as int, nxt.y as int, (fuel
                - 1) as nat) {
                Some(rest2) => {
                    assert(walk_positions(g, px as int, py as int, x as int, y as int, fuel as nat)
                        == Some(seq![(x as int, y as int)] + rest2));
                    assert(pos_ints(lt0) + (seq![(x as int, y as int)] + rest2) =~= pos_ints(
                        loop_tiles@,
                    ) + rest2);
                },
                None => {},
            }
        }
        px = x;
        py = y;
        x = nxt.x;
        y = nxt.y;
        fuel = fuel - 1;
    }
    let ghost lp = lp0 + walk_positions(
        g,
        start.x as int,
        start.y as int,
        n1.x as int,
        n1.y as int,
        fuel0,
    ).unwrap();
    proof {
        assert(lp == pos_ints(loop_tiles@));
        lemma_grid_inner_bound(
            g,
            0,
            lp,
            (start.x as int, start.y as int),
            start_shape,
        );
        lemma_grid_cells_bound(input@);
    }
    // scan every row with the crossing rule
    let n = lines.len();
    let mut total: i64 = 0;
    let mut row: usize = 0;
    let ghost sp = (start.x as int, start.y as int);
    while row < n
        invariant
            row <= n,
            0 <= total,
            match grid_inner(g, row as int, lp, sp, start_shape) {
                Some(rest) => grid_inner(g, 0, lp, sp, start_shape) == Some(total + rest),
                None => grid_inner(g, 0, lp, sp, start_shape) is None,
            },
            total + grid_cells(g, row as int) <= grid_cells(g, 0),
        decreases n - row,
    {
        proof {
            assert(deep(lines@)[row as int] == lines@[row as int]@);
            assert(g[row as int] == lines@[row as int]@);
            lemma_row_inner_bound(lines@[row as int]@, row as int, 0, false, lp, sp, start_shape);
            lemma_grid_inner_bound(g, row + 1, lp, sp, start_shape);
        }
        let k = match count_inner_tiles(row, lines[row].as_slice(), &loop_tiles, start,
            start_shape) {
            None => {
                return Err(Error::BadInput);
            },
            Some(k) => k,
        };
        total = total + k;
        row = row + 1;
    }
    proof {
        assert(grid_inner(g, n as int, lp, sp, start_shape) == Some(0int));
    }
    Ok(total)
}

} // verus!
