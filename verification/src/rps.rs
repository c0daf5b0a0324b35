//! Scoring rounds of rock, paper, scissors.
//!
//! A round line names the opponent's hand (`A`, `B`, `C`) and a second
//! letter (`X`, `Y`, `Z`) read either as the player's own hand or as the
//! round's required outcome. A round scores the value of the player's hand
//! (rock 1, paper 2, scissors 3) plus the value of the outcome (loss 0,
//! draw 3, win 6).

use vstd::prelude::*;
use vstd::string::*;

verus! {

/// One of the three hands.
#[derive(Debug, Clone, Copy, PartialEq, Eq, Structural)]
pub enum Shape {
    Rock,
    Paper,
    Scissors,
}

/// How a round ends for the player.
#[derive(Debug, Clone, Copy, PartialEq, Eq, Structural)]
pub enum Outcome {
    Win,
    Lose,
    Draw,
}

/// A round line that does not name a hand or an outcome.
#[derive(Clone, Copy, PartialEq, Eq, Debug, Structural)]
pub enum RoundError {
    /// The line is not two letters separated by one space.
    InvalidRound,
    /// The first letter is not `A`, `B` or `C`.
    InvalidHand,
    /// The second letter is not `X`, `Y` or `Z`.
    InvalidSecond,
}

/// The score value of a hand: rock 1, paper 2, scissors 3.
pub open spec fn shape_value(s: Shape) -> int {
    match s {
        Shape::Rock => 1,
        Shape::Paper => 2,
        Shape::Scissors => 3,
    }
}

/// The score value of an outcome: loss 0, draw 3, win 6.
pub open spec fn outcome_value(o: Outcome) -> int {
    match o {
        Outcome::Win => 6,
        Outcome::Lose => 0,
        Outcome::Draw => 3,
    }
}

/// Whether hand `a` beats hand `b`.
pub open spec fn spec_beats(a: Shape, b: Shape) -> bool {
    (a == Shape::Rock && b == Shape::Scissors) || (a == Shape::Paper && b == Shape::Rock) || (a
        == Shape::Scissors && b == Shape::Paper)
}

/// How a round of `me` against `other` ends for `me`.
pub open spec fn spec_outcome(me: Shape, other: Shape) -> Outcome {
    if spec_beats(me, other) {
        Outcome::Win
    } else if spec_beats(other, me) {
        Outcome::Lose
    } else {
        Outcome::Draw
    }
}

impl Shape {
    /// Whether this hand beats `other`.
    pub fn beats(&self, other: &Self) -> (r: bool)
        ensures
            r == spec_beats(*self, *other),
    {
        match (self, other) {
            (Shape::Rock, Shape::Scissors) => true,
            (Shape::Paper, Shape::Rock) => true,
            (Shape::Scissors, Shape::Paper) => true,
            (_, _) => false,
        }
    }

    /// How a round of this hand against `other` ends for this hand.
    pub fn outcome(&self, other: &Self) -> (r: Outcome)
        ensures
            r == spec_outcome(*self, *other),
    {
        if self.beats(other) {
            Outcome::Win
        } else if other.beats(self) {
            Outcome::Lose
        } else {
            Outcome::Draw
        }
    }

    /// The hand that ends a round against this hand with `outcome`: it
    /// exists and is unique.
    pub fn find_outcome(&self, outcome: Outcome) -> (r: Self)
        ensures
            spec_outcome(r, *self) == outcome,
            forall|m: Shape| spec_outcome(m, *self) == outcome ==> m == r,
    {
        match (outcome, self) {
            (Outcome::Draw, _) => *self,
            (Outcome::Win, Shape::Rock) => Shape::Paper,
            (Outcome::Win, Shape::Paper) => Shape::Scissors,
            (Outcome::Win, Shape::Scissors) => Shape::Rock,
            (Outcome::Lose, Shape::Rock) => Shape::Scissors,
            (Outcome::Lose, Shape::Paper) => Shape::Rock,
            (Outcome::Lose, Shape::Scissors) => Shape::Paper,
        }
    }
}

/// The hand that the letters `A`, `B`, `C` name.
pub open spec fn their_hand(c: char) -> Option<Shape> {
    if c == 'A' {
        Some(Shape::Rock)
    } else if c == 'B' {
        Some(Shape::Paper)
    } else if c == 'C' {
        Some(Shape::Scissors)
    } else {
        None
    }
}

/// The hand that the letters `X`, `Y`, `Z` name.
pub open spec fn my_hand(c: char) -> Option<Shape> {
    if c == 'X' {
        Some(Shape::Rock)
    } else if c == 'Y' {
        Some(Shape::Paper)
    } else if c == 'Z' {
        Some(Shape::Scissors)
    } else {
        None
    }
}

/// The outcome that the letters `X`, `Y`, `Z` name.
pub open spec fn wanted_outcome(c: char) -> Option<Outcome> {
    if c == 'X' {
        Some(Outcome::Lose)
    } else if c == 'Y' {
        Some(Outcome::Draw)
    } else if c == 'Z' {
        Some(Outcome::Win)
    } else {
        None
    }
}

/// Whether a round line has its two-letter shape: a letter, a space, a letter.
pub open spec fn round_shape_ok(s: Seq<char>) -> bool {
    s.len() == 3 && s[1] == ' '
}

/// The score of a round read as "their hand, then my hand": the value of
/// my hand plus the value of the resulting outcome.
pub open spec fn spec_score_one(s: Seq<char>) -> Result<int, RoundError> {
    if !round_shape_ok(s) {
        Err(RoundError::InvalidRound)
    } else if their_hand(s[0]) is None {
        Err(RoundError::InvalidHand)
    } else if my_hand(s[2]) is None {
        Err(RoundError::InvalidSecond)
    } else {
        let you = their_hand(s[0])->Some_0;
        let me = my_hand(s[2])->Some_0;
        Ok(outcome_value(spec_outcome(me, you)) + shape_value(me))
    }
}

/// The score of a round read as "their hand, then the wanted outcome":
/// the value of that outcome plus the value of the hand that reaches it.
pub open spec fn spec_score_two(s: Seq<char>) -> Result<int, RoundError> {
    if !round_shape_ok(s) {
        Err(RoundError::InvalidRound)
    } else if their_hand(s[0]) is None {
        Err(RoundError::InvalidHand)
    } else if wanted_outcome(s[2]) is None {
        Err(RoundError::InvalidSecond)
    } else {
        let you = their_hand(s[0])->Some_0;
        let outcome = wanted_outcome(s[2])->Some_0;
        Ok(
            outcome_value(outcome) + shape_value(
                choose|m: Shape| spec_outcome(m, you) == outcome,
            ),
        )
    }
}

/// Reads the first letter of a valid round line.
fn parse_their_hand(round: &str) -> (r: Result<Shape, RoundError>)
    ensures
        match r {
            Ok(h) => round_shape_ok(round@) && their_hand(round@[0]) == Some(h),
            Err(e) => (e == RoundError::InvalidRound <==> !round_shape_ok(round@)) && (e
                == RoundError::InvalidHand <==> round_shape_ok(round@) && their_hand(round@[0])
                is None) && (e == RoundError::InvalidRound || e == RoundError::InvalidHand),
        },
{
    let n: usize = round.unicode_len();
    if n != 3 {
        return Err(RoundError::InvalidRound);
    }
    if round.get_char(1) != ' ' {
        return Err(RoundError::InvalidRound);
    }
    match round.get_char(0) {
        'A' => Ok(Shape::Rock),
        'B' => Ok(Shape::Paper),
        'C' => Ok(Shape::Scissors),
        _ => Err(RoundError::InvalidHand),
    }
}

/// Scores a round line `"<their hand> <my hand>"`: the value of my hand
/// (`X` rock, `Y` paper, `Z` scissors) plus the value of the outcome I
/// reach with it.
pub fn score_strategy_one(round: &str) -> (r: Result<u32, RoundError>)
    ensures
        match r {
            Ok(v) => spec_score_one(round@) == Ok::<int, RoundError>(v as int),
            Err(e) => spec_score_one(round@) == Err::<int, RoundError>(e),
        },
{
    let you: Shape = match parse_their_hand(round) {
        Ok(h) => h,
        Err(e) => {
            return Err(e);
        },
    };
    let me: Shape = match round.get_char(2) {
        'X' => Shape::Rock,
        'Y' => Shape::Paper,
        'Z' => Shape::Scissors,
        _ => {
            return Err(RoundError::InvalidSecond);
        },
    };
    let outcome: Outcome = me.outcome(&you);
    let ov: u32 = match outcome {
        Outcome::Win => 6,
        Outcome::Lose => 0,
        Outcome::Draw => 3,
    };
    let sv: u32 = match me {
        Shape::Rock => 1,
        Shape::Paper => 2,
        Shape::Scissors => 3,
    };
    Ok(ov + sv)
}

/// Scores a round line `"<their hand> <wanted outcome>"`: the value of the
/// wanted outcome (`X` loss, `Y` draw, `Z` win) plus the value of the hand
/// that reaches it.
pub fn score_strategy_two(round: &str) -> (r: Result<u32, RoundError>)
    ensures
        match r {
            Ok(v) => spec_score_two(round@) == Ok::<int, RoundError>(v as int),
            Err(e) => spec_score_two(round@) == Err::<int, RoundError>(e),
        },
{
    let you: Shape = match parse_their_hand(round) {
        Ok(h) => h,
        Err(e) => {
            return Err(e);
        },
    };
    let outcome: Outcome = match round.get_char(2) {
        'X' => Outcome::Lose,
        'Y' => Outcome::Draw,
        'Z' => Outcome::Win,
        _ => {
            return Err(RoundError::InvalidSecond);
        },
    };
    let me: Shape = you.find_outcome(outcome);
    proof {
        assert(spec_outcome(me, you) == outcome);
        let chosen = choose|m: Shape| spec_outcome(m, you) == outcome;
        assert(spec_outcome(chosen, you) == outcome);
        assert(chosen == me);
    }
    let ov: u32 = match outcome {
        Outcome::Win => 6,
        Outcome::Lose => 0,
        Outcome::Draw => 3,
    };
    let sv: u32 = match me {
        Shape::Rock => 1,
        Shape::Paper => 2,
        Shape::Scissors => 3,
    };
    Ok(ov + sv)
}

} // verus!
