use advent::day2::Outcome;
use advent::day2::Round;
use advent::day2::Shape;
use advent::day2::parse_rounds;

#[test]
fn test_throw_paper() {
    let round = Round { response: Shape::Paper, opponent: Shape::Rock };
    assert_eq!(round.outcome(), Outcome::Win);
    assert_eq!(round.score(), 2 + 6);

    let round = Round { response: Shape::Paper, opponent: Shape::Paper };
    assert_eq!(round.outcome(), Outcome::Draw);
    assert_eq!(round.score(), 2 + 3);

    let round = Round { response: Shape::Paper, opponent: Shape::Scissors };
    assert_eq!(round.outcome(), Outcome::Loss);
    assert_eq!(round.score(), 2 + 0);
}

#[test]
fn test_throw_rock() {
    let round = Round { response: Shape::Rock, opponent: Shape::Rock };
    assert_eq!(round.outcome(), Outcome::Draw);
    assert_eq!(round.score(), 1 + 3);

    let round = Round { response: Shape::Rock, opponent: Shape::Paper };
    assert_eq!(round.outcome(), Outcome::Loss);
    assert_eq!(round.score(), 1 + 0);

    let round = Round { response: Shape::Rock, opponent: Shape::Scissors };
    assert_eq!(round.outcome(), Outcome::Win);
    assert_eq!(round.score(), 1 + 6);
}

#[test]
fn test_throw_scissors() {
    let round = Round { response: Shape::Scissors, opponent: Shape::Rock };
    assert_eq!(round.outcome(), Outcome::Loss);
    assert_eq!(round.score(), 3 + 0);

    let round = Round { response: Shape::Scissors, opponent: Shape::Paper };
    assert_eq!(round.outcome(), Outcome::Win);
    assert_eq!(round.score(), 3 + 6);

    let round = Round { response: Shape::Scissors, opponent: Shape::Scissors };
    assert_eq!(round.outcome(), Outcome::Draw);
    assert_eq!(round.score(), 3 + 3);
}

#[test]
fn parse_rounds_reads_both_schemes() {
    let lines: Vec<String> = vec!["A Y".to_string(), "B X".to_string(), "junk".to_string()];
    let part1 = parse_rounds(&lines, true);
    assert_eq!(part1.len(), 2);
    assert_eq!(part1[0], Round { opponent: Shape::Rock, response: Shape::Paper });
    assert_eq!(part1[1], Round { opponent: Shape::Paper, response: Shape::Rock });

    let part2 = parse_rounds(&lines, false);
    assert_eq!(part2.len(), 2);
    // Y asks for a draw, X for a loss
    assert_eq!(part2[0], Round { opponent: Shape::Rock, response: Shape::Rock });
    assert_eq!(part2[1], Round { opponent: Shape::Paper, response: Shape::Rock });
}
