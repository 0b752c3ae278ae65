use advent::day9_part2::Direction;
use advent::day9_part2::ParseError;
use advent::day9_part2::Rope;
use advent::day9_part2::parse_line;

#[test]
fn test_rope_is_touching() {
    let mut rope = Rope { knots: [[0, 0]; 10], tail_positions: Vec::new() };

    for pos in [[0, 0], [0, 1], [1, 1], [-1, 0], [-1, -1], [-1, 1]] {
        rope.knots[0] = pos;
        assert!(rope.is_touching(1));
    }

    for pos in [[0, 2], [1, 2], [-1, 2], [-2, 1]] {
        rope.knots[0] = pos;
        assert!(!rope.is_touching(1));
    }
}

#[test]
fn test_rope_move() {
    let mut rope = Rope { knots: [[0, 0]; 10], tail_positions: Vec::new() };

    rope.pull(Direction::Right, 4);
    assert_eq!(rope.knots[0], [4, 0]);
    assert_eq!(rope.knots[1], [3, 0]);
    assert_eq!(rope.knots[2], [2, 0]);
    assert_eq!(rope.knots[3], [1, 0]);
    for i in 4..10 {
        assert_eq!(rope.knots[i], [0, 0]);
    }

    rope.pull(Direction::Up, 4);
    assert_eq!(rope.knots[0], [4, 4]);
    assert_eq!(rope.knots[1], [4, 3]);
    assert_eq!(rope.knots[2], [4, 2]);
    assert_eq!(rope.knots[3], [3, 2]);
    assert_eq!(rope.knots[4], [2, 2]);
    assert_eq!(rope.knots[5], [1, 1]);
    for i in 6..10 {
        assert_eq!(rope.knots[i], [0, 0]);
    }

    rope.pull(Direction::Left, 3);
    assert_eq!(rope.knots[0], [1, 4]);
    assert_eq!(rope.knots[1], [2, 4]);

    rope.pull(Direction::Down, 1);
    assert_eq!(rope.knots[0], [1, 3]);
    assert_eq!(rope.knots[1], [2, 4]);

    rope.pull(Direction::Right, 4);
    assert_eq!(rope.knots[0], [5, 3]);
    assert_eq!(rope.knots[1], [4, 3]);

    rope.pull(Direction::Down, 1);
    assert_eq!(rope.knots[0], [5, 2]);
    assert_eq!(rope.knots[1], [4, 3]);

    rope.pull(Direction::Left, 5);
    assert_eq!(rope.knots[0], [0, 2]);
    assert_eq!(rope.knots[1], [1, 2]);

    rope.pull(Direction::Right, 2);
    assert_eq!(rope.knots[0], [2, 2]);
    assert_eq!(rope.knots[1], [1, 2]);
}

#[test]
fn parse_line_reads_commands() {
    assert_eq!(parse_line("R 4"), Ok((Direction::Right, 4)));
    assert_eq!(parse_line("U 12"), Ok((Direction::Up, 12)));
    assert_eq!(parse_line("R"), Err(ParseError::MissingToken));
    assert_eq!(parse_line("Q 3"), Err(ParseError::BadDirection));
    assert_eq!(parse_line("R -3"), Err(ParseError::BadDistance));
    assert_eq!(parse_line("R x"), Err(ParseError::BadDistance));
}

#[test]
fn new_rope_starts_at_origin_with_origin_visited() {
    let rope = Rope::new();
    for i in 0..10 {
        assert_eq!(rope.knots[i], [0, 0]);
    }
    assert_eq!(rope.visited_count(), 1);
    assert_eq!(rope.tail_positions, vec![[0, 0]]);
}

#[test]
fn zero_distance_pull_changes_nothing() {
    let mut rope = Rope::new();
    rope.pull(Direction::Up, 0);
    for i in 0..10 {
        assert_eq!(rope.knots[i], [0, 0]);
    }
    assert_eq!(rope.visited_count(), 1);
}

#[test]
fn pull_scenarios_match_the_worked_example() {
    let mut rope = Rope::new();
    rope.pull(Direction::Right, 4);
    assert_eq!(rope.knots[0], [4, 0]);
    assert_eq!(rope.knots[1], [3, 0]);
    assert_eq!(rope.knots[2], [2, 0]);
    assert_eq!(rope.knots[3], [1, 0]);
    for i in 4..10 {
        assert_eq!(rope.knots[i], [0, 0]);
    }

    rope.pull(Direction::Up, 4);
    assert_eq!(rope.knots[0], [4, 4]);
    assert_eq!(rope.knots[1], [4, 3]);
    assert_eq!(rope.knots[2], [4, 2]);
    assert_eq!(rope.knots[3], [3, 2]);
    assert_eq!(rope.knots[4], [2, 2]);
    assert_eq!(rope.knots[5], [1, 1]);
    for i in 6..10 {
        assert_eq!(rope.knots[i], [0, 0]);
    }
}

#[test]
fn eight_command_run_keeps_ten_knot_tail_home() {
    let script = ["R 4", "U 4", "L 3", "D 1", "R 4", "D 1", "L 5", "R 2"];
    let mut rope = Rope::new();
    for line in script {
        let (direction, dist) = parse_line(line).unwrap();
        rope.pull(direction, dist);
    }
    // with ten knots the tail never leaves the origin on this script
    assert_eq!(rope.visited_count(), 1);
}

#[test]
fn eight_command_run_first_follower_visits_thirteen_cells() {
    // the knot right behind the head follows it exactly as a two-knot tail
    // would; over this script it stands on thirteen distinct cells
    let script = ["R 4", "U 4", "L 3", "D 1", "R 4", "D 1", "L 5", "R 2"];
    let mut rope = Rope::new();
    let mut seen: Vec<[i32; 2]> = vec![rope.knots[1]];
    for line in script {
        let (direction, dist) = parse_line(line).unwrap();
        for _ in 0..dist {
            rope.pull(direction, 1);
            if !seen.contains(&rope.knots[1]) {
                seen.push(rope.knots[1]);
            }
        }
    }
    assert_eq!(seen.len(), 13);
}
