use advent::day5::Move;
use advent::day5::apply_move;
use advent::day5::parse_crates;
use advent::day5::parse_move;

#[test]
fn test_parse_crates() {
    let line = "[A] [B]     [D]\n";
    let crates = parse_crates(&line);

    assert_eq!(crates.len(), 4);
    assert_eq!(crates[0], Some('A'));
    assert_eq!(crates[1], Some('B'));
    assert_eq!(crates[2], None);
    assert_eq!(crates[3], Some('D'));
}

#[test]
fn test_parse_move() {
    let line = "move 1 from 3 to 5\n";
    let mv = parse_move(line).unwrap();

    assert_eq!(mv.n, 1);
    assert_eq!(mv.src, 2);
    assert_eq!(mv.dst, 4);
}

#[test]
fn parse_move_rejects_short_lines() {
    assert!(parse_move("move 1 from 3").is_none());
    assert!(parse_move("move 1 from 0 to 2").is_none());
}

#[test]
fn apply_move_one_at_a_time_reverses() {
    let mut stacks = vec![vec!['N', 'Z'], vec!['D', 'C', 'M'], vec!['P']];
    let mv = Move { n: 2, src: 1, dst: 0 };
    apply_move(&mut stacks, &mv, false);
    assert_eq!(stacks[0], vec!['C', 'D', 'N', 'Z']);
    assert_eq!(stacks[1], vec!['M']);
    assert_eq!(stacks[2], vec!['P']);
}

#[test]
fn apply_move_block_keeps_order() {
    let mut stacks = vec![vec!['N', 'Z'], vec!['D', 'C', 'M'], vec!['P']];
    let mv = Move { n: 2, src: 1, dst: 0 };
    apply_move(&mut stacks, &mv, true);
    assert_eq!(stacks[0], vec!['D', 'C', 'N', 'Z']);
    assert_eq!(stacks[1], vec!['M']);
}
