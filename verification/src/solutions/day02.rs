//! Rock, paper, scissors: scoring a strategy guide.
//!
//! Each line of the guide names the move of the opponent and, depending on how
//! the guide is read, either the move to answer with or the outcome to reach.

use crate::helpers::parsing::{
    line_end, line_ending_or_eof, parse_all, parsed_all, views_of, AocParsable,
};
use vstd::prelude::*;
use vstd::string::StringSliceAdditionalSpecFns;

verus! {

/// How a round ends for one player.
#[derive(PartialEq, Eq, Debug, Clone, Copy, Structural)]
pub enum Outcome {
    LOSS,
    TIE,
    WIN,
}

/// What a player shows in a round.
#[derive(PartialEq, Eq, Copy, Clone, Debug, Structural)]
pub enum HandMove {
    ROCK,
    PAPER,
    SCISSORS,
}

/// Whether the move `winner` beats the move `loser`.
pub open spec fn beats(winner: HandMove, loser: HandMove) -> bool {
    ||| winner == HandMove::ROCK && loser == HandMove::SCISSORS
    ||| winner == HandMove::PAPER && loser == HandMove::ROCK
    ||| winner == HandMove::SCISSORS && loser == HandMove::PAPER
}

/// How a round ends for the player who shows `mine` against `theirs`.
pub open spec fn outcome_of(mine: HandMove, theirs: HandMove) -> Outcome {
    if mine == theirs {
        Outcome::TIE
    } else if beats(mine, theirs) {
        Outcome::WIN
    } else {
        Outcome::LOSS
    }
}

impl Outcome {
    /// The points that the outcome is worth.
    pub open spec fn points(self) -> nat {
        match self {
            Outcome::LOSS => 0,
            Outcome::TIE => 3,
            Outcome::WIN => 6,
        }
    }

    /// The outcome that a letter of the guide asks for.
    pub open spec fn of_char(letter: char) -> Option<Outcome> {
        if letter == 'X' {
            Some(Outcome::LOSS)
        } else if letter == 'Y' {
            Some(Outcome::TIE)
        } else if letter == 'Z' {
            Some(Outcome::WIN)
        } else {
            None
        }
    }

    /// The points that the outcome is worth.
    pub fn score(&self) -> (points: u8)
        ensures
            points == self.points(),
    {
        match self {
            Outcome::LOSS => 0,
            Outcome::TIE => 3,
            Outcome::WIN => 6,
        }
    }

    /// The outcome that a letter of the guide asks for: `X` to lose, `Y` to
    /// tie, `Z` to win.
    pub fn parse_from_char(char: &char) -> (outcome: Option<Outcome>)
        ensures
            outcome == Outcome::of_char(*char),
    {
        if *char == 'X' {
            Some(Outcome::LOSS)
        } else if *char == 'Y' {
            Some(Outcome::TIE)
        } else if *char == 'Z' {
            Some(Outcome::WIN)
        } else {
            None
        }
    }
}

impl HandMove {
    /// The points that showing the move is worth.
    pub open spec fn points(self) -> nat {
        match self {
            HandMove::ROCK => 1,
            HandMove::PAPER => 2,
            HandMove::SCISSORS => 3,
        }
    }

    /// The move that a letter of the guide stands for.
    pub open spec fn of_char(letter: char) -> Option<HandMove> {
        if letter == 'A' || letter == 'X' {
            Some(HandMove::ROCK)
        } else if letter == 'B' || letter == 'Y' {
            Some(HandMove::PAPER)
        } else if letter == 'C' || letter == 'Z' {
            Some(HandMove::SCISSORS)
        } else {
            None
        }
    }

    /// The points that showing the move is worth.
    pub fn score(&self) -> (points: u8)
        ensures
            points == self.points(),
    {
        match self {
            HandMove::ROCK => 1,
            HandMove::PAPER => 2,
            HandMove::SCISSORS => 3,
        }
    }

    /// The move that is worth `points`, if any.
    pub fn try_from(points: u8) -> (hand: Option<HandMove>)
        ensures
            match hand {
                Some(hand) => hand.points() == points,
                None => points < 1 || points > 3,
            },
    {
        if points == 1 {
            Some(HandMove::ROCK)
        } else if points == 2 {
            Some(HandMove::PAPER)
        } else if points == 3 {
            Some(HandMove::SCISSORS)
        } else {
            None
        }
    }

    /// How the round ends for the player who shows this move against `versus`.
    pub fn is_victorious(&self, versus: &HandMove) -> (outcome: Outcome)
        ensures
            outcome == outcome_of(*self, *versus),
    {
        if *self == *versus {
            return Outcome::TIE;
        }
        let self_beats = (self.score() + 1) % 3 + 1;
        if versus.score() == self_beats {
            Outcome::WIN
        } else {
            Outcome::LOSS
        }
    }

    /// The move that reaches `outcome` against this move.
    pub fn move_for_outcome(&self, outcome: &Outcome) -> (answer: HandMove)
        ensures
            outcome_of(answer, *self) == *outcome,
    {
        match outcome {
            Outcome::TIE => *self,
            Outcome::WIN => HandMove::try_from(self.score() % 3 + 1).unwrap(),
            Outcome::LOSS => HandMove::try_from((self.score() + 1) % 3 + 1).unwrap(),
        }
    }

    /// The move that a letter of the guide stands for: `A` or `X` for rock, `B`
    /// or `Y` for paper, `C` or `Z` for scissors.
    pub fn parse_from_char(char: &char) -> (hand: Option<HandMove>)
        ensures
            hand == HandMove::of_char(*char),
    {
        if *char == 'A' || *char == 'X' {
            Some(HandMove::ROCK)
        } else if *char == 'B' || *char == 'Y' {
            Some(HandMove::PAPER)
        } else if *char == 'C' || *char == 'Z' {
            Some(HandMove::SCISSORS)
        } else {
            None
        }
    }
}

/// Whether `byte` is a blank or a tabulator.
pub open spec fn is_space(byte: u8) -> bool {
    byte == 32 || byte == 9
}

/// The number of blanks and tabulators that `input` holds from `from` on.
pub open spec fn spaces_at(input: Seq<u8>, from: int) -> nat
    decreases input.len() - from,
{
    if 0 <= from < input.len() && is_space(input[from]) {
        1 + spaces_at(input, from + 1)
    } else {
        0
    }
}

/// The two letters of the line of the guide at offset `from`, and the offset
/// behind the line: a letter from `A` to `C`, blanks, a letter from `X` to `Z`,
/// and the end of the line.
pub open spec fn guide_line(input: Seq<u8>, from: int) -> Option<(char, char, int)> {
    let gap = spaces_at(input, from + 1);
    let second = from + 1 + gap;
    if 0 <= from < input.len() && 65 <= input[from] <= 67 && gap >= 1 && second < input.len()
        && 88 <= input[second] <= 90 {
        match line_end(input, second + 1) {
            Some(to) => Some((input[from] as char, input[second] as char, to)),
            None => None,
        }
    } else {
        None
    }
}

/// Blanks that end at a byte that is none, or at the end of the input, are
/// the blanks counted from their start.
proof fn lemma_spaces_run(input: Seq<u8>, from: int, to: int)
    requires
        0 <= from <= to <= input.len(),
        forall|i: int| from <= i < to ==> is_space(#[trigger] input[i]),
        to < input.len() ==> !is_space(input[to]),
    ensures
        spaces_at(input, from) == to - from,
    decreases to - from,
{
    if from < to {
        lemma_spaces_run(input, from + 1, to);
    }
}

/// Reads one line of the guide.
fn parse_guide_line(input: &[u8], from: usize) -> (read: Option<(char, char, usize)>)
    requires
        from <= input@.len(),
    ensures
        match read {
            Some((first, second, to)) => guide_line(input@, from as int) == Some(
                (first, second, to as int),
            ) && from < to <= input@.len(),
            None => guide_line(input@, from as int) is None,
        },
{
    if from >= input.len() || input[from] < 65 || input[from] > 67 {
        return None;
    }
    let mut second = from + 1;
    while second < input.len() && (input[second] == 32 || input[second] == 9)
        invariant
            from + 1 <= second <= input@.len(),
            forall|i: int| from + 1 <= i < second ==> is_space(#[trigger] input@[i]),
        decreases input@.len() - second,
    {
        second += 1;
    }
    proof {
        lemma_spaces_run(input@, from + 1, second as int);
    }
    if second == from + 1 || second >= input.len() || input[second] < 88 || input[second] > 90 {
        return None;
    }
    match line_ending_or_eof(input, second + 1) {
        Some(to) => Some((input[from] as char, input[second] as char, to)),
        None => None,
    }
}

/// A round in which the guide names the move to answer with.
#[derive(Debug, Clone, Copy)]
pub struct PartOneRound {
    pub opponent: HandMove,
    pub me: HandMove,
}

impl PartOneRound {
    /// The points that the round is worth: those of its outcome and those of
    /// the move shown.
    pub open spec fn points(self) -> nat {
        outcome_of(self.me, self.opponent).points() + self.me.points()
    }

    /// The points that the round is worth.
    pub fn my_score(&self) -> (points: u8)
        ensures
            points == self.points(),
    {
        self.me.is_victorious(&self.opponent).score() + self.me.score()
    }
}

impl View for PartOneRound {
    type V = PartOneRound;

    open spec fn view(&self) -> PartOneRound {
        *self
    }
}

impl AocParsable for PartOneRound {
    open spec fn parsed(input: Seq<u8>, from: int) -> Option<(PartOneRound, int)> {
        match guide_line(input, from) {
            Some((first, second, to)) => Some(
                (
                    PartOneRound {
                        opponent: HandMove::of_char(first)->0,
                        me: HandMove::of_char(second)->0,
                    },
                    to,
                ),
            ),
            None => None,
        }
    }

    fn parse_from_string(input: &[u8], from: usize) -> (read: Option<(Self, usize)>) {
        match parse_guide_line(input, from) {
            Some((opponent_char, me_char, rest)) => {
                let opponent_move = HandMove::parse_from_char(&opponent_char).unwrap();
                let me_move = HandMove::parse_from_char(&me_char).unwrap();
                Some((PartOneRound { opponent: opponent_move, me: me_move }, rest))
            },
            None => None,
        }
    }
}

/// A round in which the guide names the outcome to reach.
#[derive(Debug, Clone, Copy)]
pub struct PartTwoRound {
    pub opponent: HandMove,
    pub desired_outcome: Outcome,
}

impl PartTwoRound {
    /// The points that the round is worth: those of the outcome and those of
    /// the move that reaches it.
    pub open spec fn points(self) -> nat {
        self.desired_outcome.points() + (choose|answer: HandMove|
            outcome_of(answer, self.opponent) == self.desired_outcome).points()
    }

    /// The points that the round is worth.
    pub fn my_score(&self) -> (points: u8)
        ensures
            points == self.points(),
    {
        let my_move = self.opponent.move_for_outcome(&self.desired_outcome);
        proof {
            let chosen = choose|answer: HandMove|
                outcome_of(answer, self.opponent) == self.desired_outcome;
            assert(outcome_of(my_move, self.opponent) == self.desired_outcome);
            assert(chosen == my_move);
        }
        my_move.is_victorious(&self.opponent).score() + my_move.score()
    }
}

impl View for PartTwoRound {
    type V = PartTwoRound;

    open spec fn view(&self) -> PartTwoRound {
        *self
    }
}

impl AocParsable for PartTwoRound {
    open spec fn parsed(input: Seq<u8>, from: int) -> Option<(PartTwoRound, int)> {
        match guide_line(input, from) {
            Some((first, second, to)) => Some(
                (
                    PartTwoRound {
                        opponent: HandMove::of_char(first)->0,
                        desired_outcome: Outcome::of_char(second)->0,
                    },
                    to,
                ),
            ),
            None => None,
        }
    }

    fn parse_from_string(input: &[u8], from: usize) -> (read: Option<(Self, usize)>) {
        match parse_guide_line(input, from) {
            Some((opponent_char, me_char, rest)) => {
                let opponent_move = HandMove::parse_from_char(&opponent_char).unwrap();
                let desired_outcome = Outcome::parse_from_char(&me_char).unwrap();
                Some((PartTwoRound { opponent: opponent_move, desired_outcome }, rest))
            },
            None => None,
        }
    }
}

/// The points of all rounds together, rounds taken as their points.
pub open spec fn total_points(points: Seq<nat>) -> nat
    decreases points.len(),
{
    if points.len() == 0 {
        0
    } else {
        total_points(points.drop_last()) + points.last()
    }
}

/// The score of a guide whose second letters name moves: the points of all its
/// rounds, or `None` for an empty guide.
pub fn part_one(input: &str) -> (score: Option<u32>)
    requires
        parsed_all::<PartOneRound>(input.spec_bytes(), 0) is Some,
        total_points(
            parsed_all::<PartOneRound>(input.spec_bytes(), 0)->0.map_values(
                |round: PartOneRound| round.points(),
            ),
        ) <= u32::MAX,
    ensures
        score == ({
            let rounds = parsed_all::<PartOneRound>(input.spec_bytes(), 0)->0;
            if rounds.len() == 0 {
                None
            } else {
                Some(total_points(rounds.map_values(|round: PartOneRound| round.points())) as u32)
            }
        }),
{
    let rounds: Vec<PartOneRound> = parse_all(input.as_bytes()).unwrap();
    proof {
        assert(views_of(rounds@) =~= rounds@);
    }
    let ghost points = rounds@.map_values(|round: PartOneRound| round.points());
    let mut total: u32 = 0;
    let mut index: usize = 0;
    while index < rounds.len()
        invariant
            index <= rounds@.len(),
            points == rounds@.map_values(|round: PartOneRound| round.points()),
            total == total_points(points.take(index as int)),
            total_points(points) <= u32::MAX,
        decreases rounds@.len() - index,
    {
        proof {
            assert(points.take(index + 1).drop_last() =~= points.take(index as int));
            lemma_total_grows(points, index + 1);
        }
        total = total + rounds[index].my_score() as u32;
        index += 1;
    }
    proof {
        assert(points.take(rounds@.len() as int) =~= points);
    }
    if rounds.len() == 0 {
        None
    } else {
        Some(total)
    }
}

/// The score of a guide whose second letters name outcomes: the points of all
/// its rounds, or `None` for an empty guide.
pub fn part_two(input: &str) -> (score: Option<u32>)
    requires
        parsed_all::<PartTwoRound>(input.spec_bytes(), 0) is Some,
        total_points(
            parsed_all::<PartTwoRound>(input.spec_bytes(), 0)->0.map_values(
                |round: PartTwoRound| round.points(),
            ),
        ) <= u32::MAX,
    ensures
        score == ({
            let rounds = parsed_all::<PartTwoRound>(input.spec_bytes(), 0)->0;
            if rounds.len() == 0 {
                None
            } else {
                Some(total_points(rounds.map_values(|round: PartTwoRound| round.points())) as u32)
            }
        }),
{
    let rounds: Vec<PartTwoRound> = parse_all(input.as_bytes()).unwrap();
    proof {
        assert(views_of(rounds@) =~= rounds@);
    }
    let ghost points = rounds@.map_values(|round: PartTwoRound| round.points());
    let mut total: u32 = 0;
    let mut index: usize = 0;
    while index < rounds.len()
        invariant
            index <= rounds@.len(),
            points == rounds@.map_values(|round: PartTwoRound| round.points()),
            total == total_points(points.take(index as int)),
            total_points(points) <= u32::MAX,
        decreases rounds@.len() - index,
    {
        proof {
            assert(points.take(index + 1).drop_last() =~= points.take(index as int));
            lemma_total_grows(points, index + 1);
        }
        total = total + rounds[index].my_score() as u32;
        index += 1;
    }
    proof {
        assert(points.take(rounds@.len() as int) =~= points);
    }
    if rounds.len() == 0 {
        None
    } else {
        Some(total)
    }
}

/// The points of the first rounds do not exceed those of all rounds.
proof fn lemma_total_grows(points: Seq<nat>, shorter: int)
    requires
        0 <= shorter <= points.len(),
    ensures
        total_points(points.take(shorter)) <= total_points(points),
    decreases points.len() - shorter,
{
    if shorter < points.len() {
        lemma_total_grows(points.drop_last(), shorter);
        assert(points.drop_last().take(shorter) =~= points.take(shorter));
    } else {
        assert(points.take(shorter) =~= points);
    }
}

} // verus!
