use advent::day10::{part1, part2, Pipe, PipeShape, Position};
use advent::Error;

const EXAMPLE_INPUT1: &str = ".....
.S-7.
.|.|.
.L-J.
.....";

const EXAMPLE_INPUT2: &str = "..F7.
.FJ|.
SJ.L7
|F--J
LJ...";

#[test]
fn test_part1_example1() {
    assert_eq!(part1(EXAMPLE_INPUT1.as_bytes()).unwrap(), 4);
}

#[test]
fn test_part1_example2() {
    assert_eq!(part1(EXAMPLE_INPUT2.as_bytes()).unwrap(), 8);
}

fn test_pipe_neighbours(
    x: usize,
    y: usize,
    shape: PipeShape,
    expected1: Position,
    expected2: Position,
) {
    let pipe = Pipe { position: Position { x, y }, shape };
    let neighbours = pipe.neighbours();
    assert_eq!(neighbours.0, expected1);
    assert_eq!(neighbours.1, expected2);
}

#[test]
fn test_neighbours() {
    test_pipe_neighbours(
        2,
        2,
        PipeShape::Vertical,
        Position { x: 1, y: 2 },
        Position { x: 3, y: 2 },
    );
    test_pipe_neighbours(
        2,
        2,
        PipeShape::Horizontal,
        Position { x: 2, y: 1 },
        Position { x: 2, y: 3 },
    );
    test_pipe_neighbours(
        2,
        2,
        PipeShape::Bend { goes_up: true, goes_right: true },
        Position { x: 1, y: 2 },
        Position { x: 2, y: 3 },
    );
    test_pipe_neighbours(
        2,
        2,
        PipeShape::Bend { goes_up: false, goes_right: true },
        Position { x: 3, y: 2 },
        Position { x: 2, y: 3 },
    );
    test_pipe_neighbours(
        2,
        2,
        PipeShape::Bend { goes_up: true, goes_right: false },
        Position { x: 1, y: 2 },
        Position { x: 2, y: 1 },
    );
    test_pipe_neighbours(
        2,
        2,
        PipeShape::Bend { goes_up: false, goes_right: false },
        Position { x: 3, y: 2 },
        Position { x: 2, y: 1 },
    );
}

#[test]
fn test_part2_example1() {
    assert_eq!(part2(EXAMPLE_INPUT1.as_bytes()).unwrap(), 1);
}

#[test]
fn test_part2_example2() {
    assert_eq!(part2(EXAMPLE_INPUT2.as_bytes()).unwrap(), 1);
}

#[test]
fn part2_counts_enclosed_ground() {
    let larger = "...........
.S-------7.
.|F-----7|.
.||.....||.
.||.....||.
.|L-7.F-J|.
.|..|.|..|.
.L--J.L--J.
...........";
    assert_eq!(part2(larger.as_bytes()).unwrap(), 4);
}

#[test]
fn part1_error_cases() {
    // no start tile at all
    assert!(part1(b"....").is_err());
    // the start has only one pipe neighbour
    assert!(part1(b"S-..").is_err());
    // a closed loop next to the start never returns to it
    assert_eq!(part1(b"SF7\n|LJ"), Err(Error::NoProgress));
}
