//! Rock, paper, scissors: a strategy guide lists one round per line, the
//! opponent's shape (`A`, `B`, `C`), a separator, then one's own (`X`, `Y`, `Z`).
//! A round scores the own shape (1, 2 or 3) plus the outcome (0, 3 or 6).

use vstd::prelude::*;
use crate::text::{chars_of, line_views};

verus! {

/// A hand shape.
#[derive(Debug, Clone, Copy, PartialEq, Eq, Structural)]
pub enum RPSMove {
    Rock,
    Paper,
    Scissors,
}

/// The outcome of a round for oneself, with the points it scores.
#[derive(Debug, Clone, Copy, PartialEq, Eq, Structural)]
pub enum RPSResult {
    SelfWin(i32),
    SelfLoss(i32),
    Draw(i32),
}

/// Why a strategy guide could not be read.
#[derive(Debug, Clone, Copy, PartialEq, Eq, Structural)]
pub enum RpsError {
    /// A round line holds no character.
    EmptyRound,
    /// A round line ends before its own shape.
    MissingMove,
    /// A character that stands for no shape.
    UnknownMove(char),
}

/// The shape that a letter of the guide stands for.
pub open spec fn move_of(c: char) -> Option<RPSMove> {
    if c == 'A' || c == 'X' {
        Some(RPSMove::Rock)
    } else if c == 'B' || c == 'Y' {
        Some(RPSMove::Paper)
    } else if c == 'C' || c == 'Z' {
        Some(RPSMove::Scissors)
    } else {
        None
    }
}

pub open spec fn shape_score(m: RPSMove) -> int {
    match m {
        RPSMove::Rock => 1,
        RPSMove::Paper => 2,
        RPSMove::Scissors => 3,
    }
}

/// Rock beats scissors, scissors beat paper, paper beats rock.
pub open spec fn beats(a: RPSMove, b: RPSMove) -> bool {
    ||| a == RPSMove::Rock && b == RPSMove::Scissors
    ||| a == RPSMove::Scissors && b == RPSMove::Paper
    ||| a == RPSMove::Paper && b == RPSMove::Rock
}

/// The points of a round where oneself plays `me` against `them`.
pub open spec fn round_points(me: RPSMove, them: RPSMove) -> int {
    shape_score(me) + if beats(me, them) {
        6int
    } else if me == them {
        3int
    } else {
        0int
    }
}

pub open spec fn result_score(r: RPSResult) -> int {
    match r {
        RPSResult::SelfWin(n) => n as int,
        RPSResult::SelfLoss(n) => n as int,
        RPSResult::Draw(n) => n as int,
    }
}

/// The outcome of `me` against `them`, with its points.
pub open spec fn outcome(me: RPSMove, them: RPSMove) -> RPSResult {
    if beats(me, them) {
        RPSResult::SelfWin(round_points(me, them) as i32)
    } else if me == them {
        RPSResult::Draw(round_points(me, them) as i32)
    } else {
        RPSResult::SelfLoss(round_points(me, them) as i32)
    }
}

impl RPSMove {
    /// The shape that a letter of the guide stands for.
    pub fn decrypt_from_char(encrypted_move: char) -> (r: Result<RPSMove, RpsError>)
        ensures
            match move_of(encrypted_move) {
                Some(m) => r == Ok::<RPSMove, RpsError>(m),
                None => r == Err::<RPSMove, RpsError>(RpsError::UnknownMove(encrypted_move)),
            },
    {
        match encrypted_move {
            'A' | 'X' => Ok(RPSMove::Rock),
            'B' | 'Y' => Ok(RPSMove::Paper),
            'C' | 'Z' => Ok(RPSMove::Scissors),
            _ => Err(RpsError::UnknownMove(encrypted_move)),
        }
    }

    /// The points the shape itself scores.
    pub fn as_score(&self) -> (r: i32)
        ensures
            r == shape_score(*self),
    {
        match self {
            RPSMove::Rock => 1,
            RPSMove::Paper => 2,
            RPSMove::Scissors => 3,
        }
    }

    /// The outcome of playing this shape against `opponent_move`.
    pub fn play(&self, opponent_move: RPSMove) -> (r: RPSResult)
        ensures
            r == outcome(*self, opponent_move),
    {
        match self {
            RPSMove::Rock => match opponent_move {
                RPSMove::Rock => RPSResult::Draw(self.as_score() + 3),
                RPSMove::Paper => RPSResult::SelfLoss(self.as_score()),
                RPSMove::Scissors => RPSResult::SelfWin(self.as_score() + 6),
            },
            RPSMove::Paper => match opponent_move {
                RPSMove::Rock => RPSResult::SelfWin(self.as_score() + 6),
                RPSMove::Paper => RPSResult::Draw(self.as_score() + 3),
                RPSMove::Scissors => RPSResult::SelfLoss(self.as_score()),
            },
            RPSMove::Scissors => match opponent_move {
                RPSMove::Rock => RPSResult::SelfLoss(self.as_score()),
                RPSMove::Paper => RPSResult::SelfWin(self.as_score() + 6),
                RPSMove::Scissors => RPSResult::Draw(self.as_score() + 3),
            },
        }
    }
}

impl RPSResult {
    /// The points of the round.
    pub fn get_score(&self) -> (r: i32)
        ensures
            r == result_score(*self),
    {
        match self {
            RPSResult::SelfWin(num) | RPSResult::SelfLoss(num) | RPSResult::Draw(num) => *num,
        }
    }
}

/// One round of the guide: both shapes and the outcome for oneself.
#[derive(Debug, Clone, Copy, PartialEq, Eq, Structural)]
pub struct RPSRound {
    pub opponent_move: RPSMove,
    pub self_move: RPSMove,
    pub result: RPSResult,
}

impl RPSRound {
    /// Whether the outcome is the one the two shapes give.
    pub open spec fn wf(&self) -> bool {
        self.result == outcome(self.self_move, self.opponent_move)
    }
}

/// The shapes of a round line (the opponent's, then one's own): its first and
/// third characters.
pub open spec fn round_of(line: Seq<char>) -> Result<(RPSMove, RPSMove), RpsError> {
    if line.len() == 0 {
        Err(RpsError::EmptyRound)
    } else {
        match move_of(line[0]) {
            None => Err(RpsError::UnknownMove(line[0])),
            Some(them) => if line.len() < 3 {
                Err(RpsError::MissingMove)
            } else {
                match move_of(line[2]) {
                    None => Err(RpsError::UnknownMove(line[2])),
                    Some(me) => Ok((them, me)),
                }
            },
        }
    }
}

/// The rounds of the guide, in order, or the error of the first line that cannot be
/// read.
pub open spec fn rounds_of(lines: Seq<Seq<char>>) -> Result<Seq<(RPSMove, RPSMove)>, RpsError>
    decreases lines.len(),
{
    if lines.len() == 0 {
        Ok(Seq::empty())
    } else {
        match rounds_of(lines.drop_last()) {
            Err(e) => Err(e),
            Ok(rs) => match round_of(lines.last()) {
                Err(e) => Err(e),
                Ok(r) => Ok(rs.push(r)),
            },
        }
    }
}

/// The total of the rounds' points.
pub open spec fn game_score(rounds: Seq<(RPSMove, RPSMove)>) -> int
    decreases rounds.len(),
{
    if rounds.len() == 0 {
        0
    } else {
        game_score(rounds.drop_last()) + round_points(rounds.last().1, rounds.last().0)
    }
}

/// The shapes of each round.
pub open spec fn shapes(rounds: Seq<RPSRound>) -> Seq<(RPSMove, RPSMove)> {
    rounds.map_values(|r: RPSRound| (r.opponent_move, r.self_move))
}

/// The number of rounds whose total points always fit in 32 bits.
pub const MAX_ROUNDS: usize = 238_609_294;

impl RPSRound {
    /// Reads one round line, as `round_of` describes.
    pub fn new(line: &str) -> (r: Result<RPSRound, RpsError>)
        ensures
            match round_of(line@) {
                Ok((them, me)) => r matches Ok(round) && round.opponent_move == them
                    && round.self_move == me && round.wf(),
                Err(e) => r == Err::<RPSRound, RpsError>(e),
            },
    {
        let line_chars = chars_of(line);
        if line_chars.len() == 0 {
            return Err(RpsError::EmptyRound);
        }
        let opponent_move = match RPSMove::decrypt_from_char(line_chars[0]) {
            Ok(m) => m,
            Err(e) => {
                return Err(e);
            },
        };
        // The second character separates the two shapes.
        if line_chars.len() < 3 {
            return Err(RpsError::MissingMove);
        }
        let self_move = match RPSMove::decrypt_from_char(line_chars[2]) {
            Ok(m) => m,
            Err(e) => {
                return Err(e);
            },
        };
        let result = self_move.play(opponent_move);
        Ok(RPSRound { opponent_move, self_move, result })
    }
}

/// Reads each round line, as `rounds_of` describes.
pub fn decrypt_rps_rounds(input_lines: &[String]) -> (r: Result<Vec<RPSRound>, RpsError>)
    ensures
        match rounds_of(line_views(input_lines@)) {
            Ok(rs) => r matches Ok(v) && shapes(v@) == rs && v@.len() == input_lines@.len()
                && forall|i: int| 0 <= i < v@.len() ==> (#[trigger] v@[i]).wf(),
            Err(e) => r == Err::<Vec<RPSRound>, RpsError>(e),
        },
{
    let ghost ls = line_views(input_lines@);
    let mut decrypted_rounds: Vec<RPSRound> = Vec::new();
    let mut i: usize = 0;
    assert(ls.subrange(0, 0) =~= Seq::<Seq<char>>::empty());
    assert(shapes(decrypted_rounds@) =~= Seq::<(RPSMove, RPSMove)>::empty());
    while i < input_lines.len()
        invariant
            i <= input_lines@.len(),
            ls == line_views(input_lines@),
            rounds_of(ls.subrange(0, i as int)) == Ok::<Seq<(RPSMove, RPSMove)>, RpsError>(
                shapes(decrypted_rounds@),
            ),
            decrypted_rounds@.len() == i,
            forall|j: int| 0 <= j < decrypted_rounds@.len() ==> (#[trigger] decrypted_rounds@[j]).wf(),
        decreases input_lines@.len() - i,
    {
        assert(ls.subrange(0, i + 1).drop_last() =~= ls.subrange(0, i as int));
        assert(ls.subrange(0, i + 1).last() == input_lines@[i as int]@);
        let round = match RPSRound::new(input_lines[i].as_str()) {
            Ok(round) => round,
            Err(e) => {
                proof {
                    lemma_rounds_stop(ls, i as int + 1);
                }
                return Err(e);
            },
        };
        let ghost prev = decrypted_rounds@;
        decrypted_rounds.push(round);
        assert(shapes(decrypted_rounds@) =~= shapes(prev).push(
            (round.opponent_move, round.self_move),
        ));
        i = i + 1;
    }
    assert(ls.subrange(0, input_lines@.len() as int) =~= ls);
    Ok(decrypted_rounds)
}

/// Once a round line cannot be read, the lines after it do not matter.
proof fn lemma_rounds_stop(lines: Seq<Seq<char>>, k: int)
    requires
        0 < k <= lines.len(),
        rounds_of(lines.subrange(0, k)) is Err,
    ensures
        rounds_of(lines) == rounds_of(lines.subrange(0, k)),
    decreases lines.len(),
{
    if k < lines.len() {
        assert(lines.drop_last().subrange(0, k) =~= lines.subrange(0, k));
        lemma_rounds_stop(lines.drop_last(), k);
    } else {
        assert(lines.subrange(0, k) =~= lines);
    }
}

proof fn lemma_round_points_range(me: RPSMove, them: RPSMove)
    ensures
        1 <= round_points(me, them) <= 9,
{
}

/// The total points of the rounds.
pub fn get_game_score(decrypted_rounds: &[RPSRound]) -> (r: i32)
    requires
        decrypted_rounds@.len() <= MAX_ROUNDS,
        forall|i: int| 0 <= i < decrypted_rounds@.len() ==> (#[trigger] decrypted_rounds@[i]).wf(),
    ensures
        r == game_score(shapes(decrypted_rounds@)),
        r >= 0,
{
    let ghost all = shapes(decrypted_rounds@);
    let mut game_score_total: i32 = 0;
    let mut i: usize = 0;
    while i < decrypted_rounds.len()
        invariant
            i <= decrypted_rounds@.len(),
            decrypted_rounds@.len() <= MAX_ROUNDS,
            all == shapes(decrypted_rounds@),
            forall|j: int| 0 <= j < decrypted_rounds@.len() ==> (#[trigger] decrypted_rounds@[j]).wf(),
            game_score_total == game_score(all.subrange(0, i as int)),
            0 <= game_score_total <= 9 * i,
        decreases decrypted_rounds@.len() - i,
    {
        assert(all.subrange(0, i + 1).drop_last() =~= all.subrange(0, i as int));
        let round = decrypted_rounds[i];
        assert(round.wf());
        proof {
            lemma_round_points_range(round.self_move, round.opponent_move);
        }
        game_score_total = game_score_total + round.result.get_score();
        i = i + 1;
    }
    assert(all.subrange(0, decrypted_rounds@.len() as int) =~= all);
    game_score_total
}

/// The total points of following the guide in `input_lines`.
pub fn simulate_input_strategy_results(input_lines: &[String]) -> (r: Result<i32, RpsError>)
    requires
        input_lines@.len() <= MAX_ROUNDS,
    ensures
        match rounds_of(line_views(input_lines@)) {
            Ok(rs) => r == Ok::<i32, RpsError>(game_score(rs) as i32) && 0 <= game_score(rs)
                <= i32::MAX,
            Err(e) => r == Err::<i32, RpsError>(e),
        },
{
    let decrypted_rounds = match decrypt_rps_rounds(input_lines) {
        Ok(v) => v,
        Err(e) => {
            return Err(e);
        },
    };
    Ok(get_game_score(decrypted_rounds.as_slice()))
}

} // verus!
