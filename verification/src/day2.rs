//! Scoring for the rock-paper-scissors strategy guide.
//!
//! Each input line holds an opponent move and either a response move or a
//! desired outcome; the round score is the response's value plus the
//! outcome's value.

use vstd::prelude::*;
use crate::text::split_on;
use crate::text::split_on_char;
use crate::text::string_of;
use crate::text::to_chars;

verus! {

#[derive(Debug, PartialEq, Eq, Structural, Clone, Copy)]
pub enum Outcome {
    Win,
    Loss,
    Draw,
}

#[derive(Debug, PartialEq, Eq, Structural, Clone, Copy)]
pub enum Shape {
    Rock,
    Paper,
    Scissors,
}

#[derive(Debug, PartialEq, Eq, Structural, Clone, Copy)]
pub struct Round {
    pub opponent: Shape,
    pub response: Shape,
}

impl Outcome {
    /// Score contributed by the outcome of a round.
    pub open spec fn score_spec(self) -> u32 {
        match self {
            Outcome::Win => 6,
            Outcome::Draw => 3,
            Outcome::Loss => 0,
        }
    }

    pub fn score(&self) -> (r: u32)
        ensures
            r == self.score_spec(),
    {
        match self {
            Outcome::Win => 6,
            Outcome::Draw => 3,
            Outcome::Loss => 0,
        }
    }

    /// The outcome encoded by a strategy token: `X` loss, `Y` draw, `Z` win.
    pub open spec fn from_move_spec(s: Seq<char>) -> Option<Outcome> {
        if s == seq!['X'] {
            Some(Outcome::Loss)
        } else if s == seq!['Y'] {
            Some(Outcome::Draw)
        } else if s == seq!['Z'] {
            Some(Outcome::Win)
        } else {
            None
        }
    }

    pub fn from_move(move_str: &str) -> (r: Option<Outcome>)
        ensures
            r == Outcome::from_move_spec(move_str@),
    {
        if move_str.unicode_len() != 1 {
            proof {
                assert(move_str@ != seq!['X']);
                assert(move_str@ != seq!['Y']);
                assert(move_str@ != seq!['Z']);
            }
            return None;
        }
        let c = move_str.get_char(0);
        proof {
            assert(move_str@ =~= seq![move_str@[0]]);
        }
        match c {
            'X' => Some(Outcome::Loss),
            'Y' => Some(Outcome::Draw),
            'Z' => Some(Outcome::Win),
            _ => None,
        }
    }
}

impl Shape {
    /// The shape encoded by a move token; `A`/`X` rock, `B`/`Y` paper,
    /// `C`/`Z` scissors.
    pub open spec fn from_move_spec(s: Seq<char>) -> Option<Shape> {
        if s == seq!['A'] || s == seq!['X'] {
            Some(Shape::Rock)
        } else if s == seq!['B'] || s == seq!['Y'] {
            Some(Shape::Paper)
        } else if s == seq!['C'] || s == seq!['Z'] {
            Some(Shape::Scissors)
        } else {
            None
        }
    }

    pub fn from_move(move_str: &str) -> (r: Option<Shape>)
        ensures
            r == Shape::from_move_spec(move_str@),
    {
        if move_str.unicode_len() != 1 {
            proof {
                assert(move_str@ != seq!['A']);
                assert(move_str@ != seq!['B']);
                assert(move_str@ != seq!['C']);
                assert(move_str@ != seq!['X']);
                assert(move_str@ != seq!['Y']);
                assert(move_str@ != seq!['Z']);
            }
            return None;
        }
        let c = move_str.get_char(0);
        proof {
            assert(move_str@ =~= seq![move_str@[0]]);
        }
        match c {
            'A' => Some(Shape::Rock),
            'B' => Some(Shape::Paper),
            'C' => Some(Shape::Scissors),
            'X' => Some(Shape::Rock),
            'Y' => Some(Shape::Paper),
            'Z' => Some(Shape::Scissors),
            _ => None,
        }
    }

    /// Score contributed by the shape played in a round.
    pub open spec fn score_spec(self) -> u32 {
        match self {
            Shape::Rock => 1,
            Shape::Paper => 2,
            Shape::Scissors => 3,
        }
    }

    pub fn score(&self) -> (r: u32)
        ensures
            r == self.score_spec(),
    {
        match self {
            Shape::Rock => 1,
            Shape::Paper => 2,
            Shape::Scissors => 3,
        }
    }
}

/// The response that produces `outcome` against `opponent`.
pub open spec fn response_for(opponent: Shape, outcome: Outcome) -> Shape {
    match outcome {
        Outcome::Win => match opponent {
            Shape::Rock => Shape::Paper,
            Shape::Paper => Shape::Scissors,
            Shape::Scissors => Shape::Rock,
        },
        Outcome::Draw => opponent,
        Outcome::Loss => match opponent {
            Shape::Rock => Shape::Scissors,
            Shape::Paper => Shape::Rock,
            Shape::Scissors => Shape::Paper,
        },
    }
}

/// The outcome of playing `response` against `opponent`.
pub open spec fn outcome_of(opponent: Shape, response: Shape) -> Outcome {
    match response {
        Shape::Rock => match opponent {
            Shape::Rock => Outcome::Draw,
            Shape::Paper => Outcome::Loss,
            Shape::Scissors => Outcome::Win,
        },
        Shape::Paper => match opponent {
            Shape::Rock => Outcome::Win,
            Shape::Paper => Outcome::Draw,
            Shape::Scissors => Outcome::Loss,
        },
        Shape::Scissors => match opponent {
            Shape::Rock => Outcome::Loss,
            Shape::Paper => Outcome::Win,
            Shape::Scissors => Outcome::Draw,
        },
    }
}

impl Round {
    /// Builds the round that reaches `outcome` against `opponent`.
    pub fn from_outcome(opponent: Shape, outcome: Outcome) -> (r: Round)
        ensures
            r.opponent == opponent,
            r.response == response_for(opponent, outcome),
            outcome_of(r.opponent, r.response) == outcome,
    {
        let response = match outcome {
            Outcome::Win => match opponent {
                Shape::Rock => Shape::Paper,
                Shape::Paper => Shape::Scissors,
                Shape::Scissors => Shape::Rock,
            },
            Outcome::Draw => match opponent {
                Shape::Rock => Shape::Rock,
                Shape::Paper => Shape::Paper,
                Shape::Scissors => Shape::Scissors,
            },
            Outcome::Loss => match opponent {
                Shape::Rock => Shape::Scissors,
                Shape::Paper => Shape::Rock,
                Shape::Scissors => Shape::Paper,
            },
        };
        Round { opponent, response }
    }

    pub fn outcome(&self) -> (r: Outcome)
        ensures
            r == outcome_of(self.opponent, self.response),
    {
        match self.response {
            Shape::Rock => match self.opponent {
                Shape::Rock => Outcome::Draw,
                Shape::Paper => Outcome::Loss,
                Shape::Scissors => Outcome::Win,
            },
            Shape::Paper => match self.opponent {
                Shape::Rock => Outcome::Win,
                Shape::Paper => Outcome::Draw,
                Shape::Scissors => Outcome::Loss,
            },
            Shape::Scissors => match self.opponent {
                Shape::Rock => Outcome::Loss,
                Shape::Paper => Outcome::Win,
                Shape::Scissors => Outcome::Draw,
            },
        }
    }

    /// Score of a round: the response's value plus the outcome's value.
    pub open spec fn score_spec(self) -> u32 {
        (self.response.score_spec() + outcome_of(self.opponent, self.response).score_spec()) as u32
    }

    pub fn score(&self) -> (r: u32)
        ensures
            r == self.score_spec(),
    {
        self.response.score() + self.outcome().score()
    }
}

/// The round encoded by one line, if its tokens are recognised.  Under the
/// first reading the second token is a response shape; under the second it
/// is a desired outcome.
pub open spec fn parse_round_spec(line: Seq<char>, is_part_one: bool) -> Option<Round> {
    let toks = split_on(line, ' ');
    match Shape::from_move_spec(toks[0]) {
        Some(opponent) => if is_part_one {
            if toks.len() >= 2 {
                match Shape::from_move_spec(toks[1]) {
                    Some(response) => Some(Round { opponent, response }),
                    None => None,
                }
            } else {
                None
            }
        } else {
            if toks.len() >= 2 {
                match Outcome::from_move_spec(toks[1]) {
                    Some(outcome) => Some(
                        Round { opponent, response: response_for(opponent, outcome) },
                    ),
                    None => None,
                }
            } else {
                None
            }
        },
        None => None,
    }
}

/// The rounds encoded by a sequence of lines; lines that do not parse are
/// skipped.
pub open spec fn parse_rounds_spec(lines: Seq<Seq<char>>, is_part_one: bool) -> Seq<Round>
    decreases lines.len(),
{
    if lines.len() == 0 {
        Seq::empty()
    } else {
        let head = match parse_round_spec(lines[0], is_part_one) {
            Some(round) => seq![round],
            None => Seq::empty(),
        };
        head + parse_rounds_spec(lines.skip(1), is_part_one)
    }
}

/// Parses every line into a round, skipping lines that are not recognised.
pub fn parse_rounds(lines: &Vec<String>, is_part_one: bool) -> (r: Vec<Round>)
    ensures
        r@ == parse_rounds_spec(lines.deep_view(), is_part_one),
{
    let mut r: Vec<Round> = Vec::new();
    let mut i: usize = 0;
    proof {
        assert(lines.deep_view().skip(0) =~= lines.deep_view());
        assert(Seq::<Round>::empty() + parse_rounds_spec(lines.deep_view(), is_part_one)
            =~= parse_rounds_spec(lines.deep_view(), is_part_one));
    }
    while i < lines.len()
        invariant
            i <= lines.len(),
            r@ + parse_rounds_spec(lines.deep_view().skip(i as int), is_part_one)
                == parse_rounds_spec(lines.deep_view(), is_part_one),
        decreases lines.len() - i,
    {
        let ghost before = lines.deep_view().skip(i as int);
        proof {
            assert(before.skip(1) =~= lines.deep_view().skip(i + 1 as int));
            assert(before[0] == lines.deep_view()[i as int]);
        }
        let cs = to_chars(lines[i].as_str());
        let moves = split_on_char(&cs, ' ');
        proof {
            assert(moves.deep_view()[0] == moves@[0].deep_view());
            assert(moves@[0].deep_view() =~= moves@[0]@);
            if moves@.len() >= 2 {
                assert(moves.deep_view()[1] == moves@[1].deep_view());
                assert(moves@[1].deep_view() =~= moves@[1]@);
            }
        }
        let opponent = match Shape::from_move(string_of(&moves[0]).as_str()) {
            Some(x) => Some(x),
            None => None,
        };
        match opponent {
            Some(opponent) => {
                if is_part_one {
                    if moves.len() >= 2 {
                        match Shape::from_move(string_of(&moves[1]).as_str()) {
                            Some(response) => {
                                r.push(Round { opponent, response });
                            },
                            None => {},
                        }
                    }
                } else {
                    if moves.len() >= 2 {
                        match Outcome::from_move(string_of(&moves[1]).as_str()) {
                            Some(outcome) => {
                                let round = Round::from_outcome(opponent, outcome);
                                r.push(round);
                            },
                            None => {},
                        }
                    }
                }
            },
            None => {},
        }
        i = i + 1;
        proof {
            assert(r@ + parse_rounds_spec(lines.deep_view().skip(i as int), is_part_one)
                =~= parse_rounds_spec(lines.deep_view(), is_part_one));
        }
    }
    proof {
        assert(lines.deep_view().skip(lines@.len() as int) =~= Seq::<Seq<char>>::empty());
        assert(r@ + Seq::<Round>::empty() =~= r@);
    }
    r
}

/// The summed score of a sequence of rounds.
pub open spec fn total_score_spec(rounds: Seq<Round>) -> int
    decreases rounds.len(),
{
    if rounds.len() == 0 {
        0
    } else {
        total_score_spec(rounds.drop_last()) + rounds.last().score_spec()
    }
}

/// Scores never exceed nine points per round.
pub proof fn lemma_total_score_bound(rounds: Seq<Round>)
    ensures
        0 <= total_score_spec(rounds) <= 9 * rounds.len(),
    decreases rounds.len(),
{
    if rounds.len() > 0 {
        lemma_total_score_bound(rounds.drop_last());
    }
}

/// The total score over all rounds.
pub fn total_score(rounds: &Vec<Round>) -> (r: u64)
    requires
        9 * rounds@.len() <= u64::MAX,
    ensures
        r == total_score_spec(rounds@),
{
    let mut total: u64 = 0;
    let mut i: usize = 0;
    proof {
        assert(rounds@.take(0) =~= Seq::<Round>::empty());
    }
    while i < rounds.len()
        invariant
            i <= rounds@.len(),
            9 * rounds@.len() <= u64::MAX,
            total == total_score_spec(rounds@.take(i as int)),
        decreases rounds.len() - i,
    {
        proof {
            lemma_total_score_bound(rounds@.take(i as int));
            lemma_total_score_bound(rounds@.take(i + 1 as int));
            assert(rounds@.take(i + 1 as int).drop_last() =~= rounds@.take(i as int));
            assert(rounds@.take(i + 1 as int).last() == rounds@[i as int]);
        }
        let s = rounds[i].score();
        total = total + (s as u64);
        i = i + 1;
    }
    proof {
        assert(rounds@.take(rounds@.len() as int) =~= rounds@);
    }
    total
}

} // verus!
