//! The match payload, as a fixed schema of optional fields.
//!
//! A payload arrives semi-structured and its shape has changed over time, so
//! every field may be missing at every level. These types hold the fields
//! that the statistics read; whoever decodes a stored blob fills them in and
//! leaves out what the blob lacks.

use vstd::prelude::*;

verus! {

/// The points awarded for a guess or a round.
pub struct Score {
    pub points: Option<i32>,
}

/// One guess of a player.
pub struct Guess {
    pub round_number: Option<i32>,
    pub score: Option<Score>,
}

/// The place that a round showed.
pub struct Panorama {
    pub country_code: Option<String>,
}

/// One round of a match.
pub struct Round {
    pub round_number: Option<i32>,
    pub panorama: Option<Panorama>,
    pub start_time: Option<String>,
    pub score: Option<Score>,
}

/// One player of a match.
pub struct Player {
    pub player_id: Option<String>,
    pub nick: Option<String>,
    pub guesses: Option<Vec<Guess>>,
}

/// The options that a match was played with.
pub struct GameOptions {
    pub round_time: Option<i32>,
}

/// The state of a match.
pub struct BullseyeState {
    pub game_id: Option<String>,
    pub status: Option<String>,
    pub options: Option<GameOptions>,
    pub rounds: Option<Vec<Round>>,
    pub players: Option<Vec<Player>>,
    pub map_name: Option<String>,
}

/// The game-specific part of a payload.
pub struct BullseyeData {
    pub state: Option<BullseyeState>,
    pub guess: Option<Guess>,
}

/// One submitted match payload.
pub struct BullseyePayload {
    pub game_id: Option<String>,
    pub timestamp: Option<String>,
    pub bullseye: Option<BullseyeData>,
    pub total_duration: Option<i32>,
}

/// The text of an optional string.
pub open spec fn opt_text(s: Option<String>) -> Option<Seq<char>> {
    match s {
        Some(t) => Some(t@),
        None => None,
    }
}

/// The points of an optional score; 0 where there are none.
pub open spec fn points_of(score: Option<Score>) -> int {
    match score {
        Some(s) => match s.points {
            Some(p) => p as int,
            None => 0,
        },
        None => 0,
    }
}

/// The state of a payload, if it has one.
pub open spec fn state_of(payload: Option<BullseyePayload>) -> Option<BullseyeState> {
    match payload {
        Some(p) => match p.bullseye {
            Some(b) => b.state,
            None => None,
        },
        None => None,
    }
}

/// The rounds of a payload, in order; none where the payload has no state
/// or the state no round list.
pub open spec fn rounds_of(payload: Option<BullseyePayload>) -> Seq<Round> {
    match state_of(payload) {
        Some(s) => match s.rounds {
            Some(r) => r@,
            None => Seq::empty(),
        },
        None => Seq::empty(),
    }
}

/// The players of a payload, in order; none where the payload has no state
/// or the state no player list.
pub open spec fn players_of(payload: Option<BullseyePayload>) -> Seq<Player> {
    match state_of(payload) {
        Some(s) => match s.players {
            Some(p) => p@,
            None => Seq::empty(),
        },
        None => Seq::empty(),
    }
}

/// The score of the payload's own top-level guess; 0 where there is none.
pub open spec fn explicit_score(payload: Option<BullseyePayload>) -> int {
    match payload {
        Some(p) => match p.bullseye {
            Some(b) => match b.guess {
                Some(g) => points_of(g.score),
                None => 0,
            },
            None => 0,
        },
        None => 0,
    }
}

/// The points of all rounds together.
pub open spec fn round_points_sum(rounds: Seq<Round>) -> int
    decreases rounds.len(),
{
    if rounds.len() == 0 {
        0
    } else {
        round_points_sum(rounds.drop_last()) + points_of(rounds.last().score)
    }
}

/// The points of all guesses together.
pub open spec fn guess_points_sum(guesses: Seq<Guess>) -> int
    decreases guesses.len(),
{
    if guesses.len() == 0 {
        0
    } else {
        guess_points_sum(guesses.drop_last()) + points_of(guesses.last().score)
    }
}

/// The sum of `n` round scores lies within `n` times the range of one.
pub proof fn lemma_round_points_bounded(rounds: Seq<Round>)
    ensures
        -0x8000_0000 * rounds.len() <= round_points_sum(rounds) <= 0x7fff_ffff * rounds.len(),
    decreases rounds.len(),
{
    if rounds.len() > 0 {
        lemma_round_points_bounded(rounds.drop_last());
    }
}

/// The sum of `n` guess scores lies within `n` times the range of one.
pub proof fn lemma_guess_points_bounded(guesses: Seq<Guess>)
    ensures
        -0x8000_0000 * guesses.len() <= guess_points_sum(guesses) <= 0x7fff_ffff * guesses.len(),
    decreases guesses.len(),
{
    if guesses.len() > 0 {
        lemma_guess_points_bounded(guesses.drop_last());
    }
}

/// A copy of an optional string.
pub fn clone_text(s: &Option<String>) -> (out: Option<String>)
    ensures
        opt_text(out) == opt_text(*s),
{
    match s {
        Some(t) => Some(t.clone()),
        None => None,
    }
}

/// The points of an optional score; 0 where there are none.
pub fn score_points(score: &Option<Score>) -> (points: i32)
    ensures
        points == points_of(*score),
{
    match score {
        Some(s) => match s.points {
            Some(p) => p,
            None => 0,
        },
        None => 0,
    }
}

} // verus!
