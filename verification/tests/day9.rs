use advent::day9::Rope;
use advent::day9_part2::ParseError;

#[test]
fn lib_test_rope_is_touching() {
    let mut rope = Rope { head: [0, 0], tail: [0, 0] };

    for pos in [[0, 0], [0, 1], [1, 1], [-1, 0], [-1, -1], [-1, 1]] {
        rope.head = pos;
        assert!(rope.is_touching());
    }

    for pos in [[0, 2], [1, 2], [-1, 2], [-2, 1]] {
        rope.head = pos;
        assert!(!rope.is_touching());
    }
}

#[test]
fn lib_test_rope_move() {
    let mut rope = Rope { head: [0, 0], tail: [0, 0] };

    rope.mv('R', 4);
    assert_eq!(rope.head, [4, 0]);
    assert_eq!(rope.tail, [3, 0]);

    rope.mv('U', 4);
    assert_eq!(rope.head, [4, 4]);
    assert_eq!(rope.tail, [4, 3]);

    rope.mv('L', 3);
    assert_eq!(rope.head, [1, 4]);
    assert_eq!(rope.tail, [2, 4]);

    rope.mv('D', 1);
    assert_eq!(rope.head, [1, 3]);
    assert_eq!(rope.tail, [2, 4]);

    rope.mv('R', 4);
    assert_eq!(rope.head, [5, 3]);
    assert_eq!(rope.tail, [4, 3]);

    rope.mv('D', 1);
    assert_eq!(rope.head, [5, 2]);
    assert_eq!(rope.tail, [4, 3]);

    rope.mv('L', 5);
    assert_eq!(rope.head, [0, 2]);
    assert_eq!(rope.tail, [1, 2]);

    rope.mv('R', 2);
    assert_eq!(rope.head, [2, 2]);
    assert_eq!(rope.tail, [1, 2]);
}

#[test]
fn two_knot_parse_line_reads_commands() {
    assert_eq!(advent::day9::parse_line("R 4"), Ok(('R', 4)));
    assert_eq!(advent::day9::parse_line("X 4"), Err(ParseError::BadDirection));
}
